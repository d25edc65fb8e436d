//! The workspace description: which game, where it lives, which tables and
//! plugins it uses, stored as `key=value` lines.

use vstd::prelude::*;
use vstd::string::StringExecFns;
use vstd::utf8::{valid_utf8, decode_utf8, encode_utf8};
use crate::text::{push_char, utf8_to_string, blank, is_blank, lines_from, split_lines};
use crate::actions::parse_u32_spec;
use crate::actions::parse_u32;

verus! {

#[derive(Debug, Clone, Copy, PartialEq, Eq, Structural)]
pub enum Game {
    Skyrim,
    SkyrimSeAe,
    Fallout4,
    Starfield,
}

#[derive(Debug, Clone, Copy, PartialEq, Eq, Structural)]
pub enum CachePolicy {
    Auto,
    Disabled,
}

#[derive(Debug, Clone, PartialEq, Eq)]
pub struct Workspace {
    pub name: String,
    pub game: Game,
    pub root_dir: String,
    pub strings_files: Vec<String>,
    pub load_order: Vec<String>,
    pub cache_dir: Option<String>,
    pub cache_policy: CachePolicy,
}

#[derive(Debug, Clone, Copy, PartialEq, Eq)]
pub enum WorkspaceError {
    InvalidFormat,
    MissingField(&'static str),
    UnsupportedVersion(u32),
    UnknownGame,
    UnknownCachePolicy,
    InvalidEscape,
}

pub open spec fn game_name(g: Game) -> Seq<char> {
    match g {
        Game::Skyrim => "Skyrim"@,
        Game::SkyrimSeAe => "SkyrimSE/AE"@,
        Game::Fallout4 => "Fallout4"@,
        Game::Starfield => "Starfield"@,
    }
}

pub open spec fn policy_name(p: CachePolicy) -> Seq<char> {
    match p {
        CachePolicy::Auto => "auto"@,
        CachePolicy::Disabled => "none"@,
    }
}

impl Game {
    pub fn as_str(&self) -> (r: &'static str)
        ensures
            r@ == game_name(*self),
    {
        match self {
            Game::Skyrim => "Skyrim",
            Game::SkyrimSeAe => "SkyrimSE/AE",
            Game::Fallout4 => "Fallout4",
            Game::Starfield => "Starfield",
        }
    }
}

impl CachePolicy {
    pub fn as_str(&self) -> (r: &'static str)
        ensures
            r@ == policy_name(*self),
    {
        match self {
            CachePolicy::Auto => "auto",
            CachePolicy::Disabled => "none",
        }
    }
}

/// The escaped form of one char of a value: `%`, `=`, line feed and carriage
/// return become `%XX`.
pub open spec fn escape_value_char(c: char) -> Seq<char> {
    if c == '%' {
        "%25"@
    } else if c == '=' {
        "%3D"@
    } else if c == '\n' {
        "%0A"@
    } else if c == '\r' {
        "%0D"@
    } else {
        seq![c]
    }
}

pub open spec fn escaped_value(s: Seq<char>) -> Seq<char>
    decreases s.len(),
{
    if s.len() == 0 {
        Seq::empty()
    } else {
        escaped_value(s.drop_last()) + escape_value_char(s.last())
    }
}

pub(crate) fn push_escaped(out: &mut String, value: &str)
    ensures
        final(out)@ == old(out)@ + escaped_value(value@),
{
    let ghost start = out@;
    for c in it: value.chars()
        invariant
            it.seq() == value@,
            out@ == start + escaped_value(value@.take(it.index())),
    {
        let ghost k = it.index();
        let ghost before = out@;
        if c == '%' {
            out.append("%25");
        } else if c == '=' {
            out.append("%3D");
        } else if c == '\n' {
            out.append("%0A");
        } else if c == '\r' {
            out.append("%0D");
        } else {
            push_char(out, c);
        }
        proof {
            assert(value@[k] == c);
            assert(value@.take(k + 1).drop_last() =~= value@.take(k));
            assert(out@ =~= before + escape_value_char(c));
        }
    }
    proof {
        assert(value@.take(value@.len() as int) =~= value@);
    }
}

/// `name=` lines for each value, each preceded by a line break.
pub open spec fn repeated_lines(name: Seq<char>, vs: Seq<Seq<char>>, n: int) -> Seq<char>
    decreases n,
{
    if n <= 0 {
        Seq::empty()
    } else {
        repeated_lines(name, vs, n - 1) + seq!['\n'] + name + escaped_value(vs[n - 1])
    }
}

pub open spec fn string_views(v: Seq<String>) -> Seq<Seq<char>> {
    v.map_values(|s: String| s@)
}

/// The stored form of a workspace: `key=value` lines, without a final line break.
pub open spec fn workspace_text(w: Workspace) -> Seq<char> {
    "version=1\nname="@ + escaped_value(w.name@) + "\ngame="@ + game_name(w.game) + "\nroot_dir="@
        + escaped_value(w.root_dir@) + repeated_lines("strings_file="@, string_views(w.strings_files@), w.strings_files@.len() as int)
        + repeated_lines("load_order="@, string_views(w.load_order@), w.load_order@.len() as int)
        + match w.cache_dir {
        Some(d) => "\ncache_dir="@ + escaped_value(d@),
        None => Seq::empty(),
    } + "\ncache_policy="@ + policy_name(w.cache_policy)
}

fn push_lines(out: &mut String, name: &str, values: &Vec<String>)
    ensures
        final(out)@ == old(out)@ + repeated_lines(name@, string_views(values@), values@.len() as int),
{
    let ghost start = out@;
    let n = values.len();
    for i in 0..n
        invariant
            n == values@.len(),
            out@ == start + repeated_lines(name@, string_views(values@), i as int),
    {
        let ghost before = out@;
        push_char(out, '\n');
        out.append(name);
        push_escaped(out, values[i].as_str());
        proof {
            assert(string_views(values@)[i as int] == values@[i as int]@);
            assert(out@ =~= before + seq!['\n'] + name@ + escaped_value(values@[i as int]@));
        }
    }
}

impl Workspace {
    /// The stored form of the workspace.
    pub fn to_text(&self) -> (r: String)
        ensures
            r@ == workspace_text(*self),
    {
        let mut out = "version=1\nname=".to_owned();
        push_escaped(&mut out, self.name.as_str());
        out.append("\ngame=");
        out.append(self.game.as_str());
        out.append("\nroot_dir=");
        push_escaped(&mut out, self.root_dir.as_str());
        push_lines(&mut out, "strings_file=", &self.strings_files);
        push_lines(&mut out, "load_order=", &self.load_order);
        let ghost before = out@;
        match &self.cache_dir {
            Some(d) => {
                out.append("\ncache_dir=");
                push_escaped(&mut out, d.as_str());
            },
            None => {},
        }
        out.append("\ncache_policy=");
        out.append(self.cache_policy.as_str());
        proof {
            assert(out@ =~= workspace_text(*self));
        }
        out
    }
}

pub open spec fn hex_value(b: u8) -> Option<u8> {
    if 0x30 <= b <= 0x39 {
        Some((b - 0x30) as u8)
    } else if 0x41 <= b <= 0x46 {
        Some((b - 0x37) as u8)
    } else if 0x61 <= b <= 0x66 {
        Some((b - 0x57) as u8)
    } else {
        None
    }
}

/// The bytes of an escaped value from byte `i` on: `%` and two hex digits
/// stand for one byte.
pub open spec fn unescaped_from(b: Seq<u8>, i: int) -> Option<Seq<u8>>
    decreases b.len() - i,
{
    if i < 0 || i >= b.len() {
        Some(Seq::empty())
    } else if b[i] == 0x25 {
        if i + 2 >= b.len() {
            None
        } else {
            match (hex_value(b[i + 1]), hex_value(b[i + 2])) {
                (Some(hi), Some(lo)) => match unescaped_from(b, i + 3) {
                    Some(rest) => Some(seq![(hi * 16 + lo) as u8] + rest),
                    None => None,
                },
                _ => None,
            }
        }
    } else {
        match unescaped_from(b, i + 1) {
            Some(rest) => Some(seq![b[i]] + rest),
            None => None,
        }
    }
}

/// The text an escaped value stands for.
pub open spec fn unescaped_value(v: Seq<char>) -> Result<Seq<char>, WorkspaceError> {
    match unescaped_from(encode_utf8(v), 0) {
        Some(b) => if valid_utf8(b) {
            Ok(decode_utf8(b))
        } else {
            Err(WorkspaceError::InvalidEscape)
        },
        None => Err(WorkspaceError::InvalidEscape),
    }
}

fn hex(b: u8) -> (r: Option<u8>)
    ensures
        r == hex_value(b),
{
    if 0x30 <= b && b <= 0x39 {
        Some(b - 0x30)
    } else if 0x41 <= b && b <= 0x46 {
        Some(b - 0x37)
    } else if 0x61 <= b && b <= 0x66 {
        Some(b - 0x57)
    } else {
        None
    }
}

pub fn unescape_value(value: &str) -> (r: Result<String, WorkspaceError>)
    ensures
        match r {
            Ok(s) => unescaped_value(value@) == Ok::<Seq<char>, WorkspaceError>(s@),
            Err(e) => unescaped_value(value@) == Err::<Seq<char>, WorkspaceError>(e),
        },
{
    match unescape_bytes(value) {
        Some(out) => match utf8_to_string(out.as_slice()) {
            Some(s) => Ok(s),
            None => Err(WorkspaceError::InvalidEscape),
        },
        None => Err(WorkspaceError::InvalidEscape),
    }
}

/// The bytes an escaped value stands for; `None` for a malformed escape.
pub fn unescape_bytes(value: &str) -> (r: Option<Vec<u8>>)
    ensures
        match r {
            Some(b) => unescaped_from(encode_utf8(value@), 0) == Some(b@),
            None => unescaped_from(encode_utf8(value@), 0) is None,
        },
{
    let b = value.as_bytes();
    let n = b.len();
    let mut out: Vec<u8> = Vec::new();
    let mut i: usize = 0;
    while i < n
        invariant
            n == b@.len(),
            b@ == encode_utf8(value@),
            i <= n,
            match unescaped_from(b@, i as int) {
                Some(rest) => unescaped_from(b@, 0) == Some(out@ + rest),
                None => unescaped_from(b@, 0) is None,
            },
        decreases n - i,
    {
        if b[i] == 0x25 {
            if n - i <= 2 {
                return None;
            }
            let (hi, lo) = match (hex(b[i + 1]), hex(b[i + 2])) {
                (Some(hi), Some(lo)) => (hi, lo),
                _ => return None,
            };
            let v = (hi as u32 * 16 + lo as u32) as u8;
            let ghost before = out@;
            out.push(v);
            proof {
                match unescaped_from(b@, i + 3) {
                    Some(rest) => {
                        assert(before + (seq![v] + rest) =~= out@ + rest);
                    },
                    None => {},
                }
            }
            i = i + 3;
        } else {
            let ghost before = out@;
            out.push(b[i]);
            proof {
                match unescaped_from(b@, i + 1) {
                    Some(rest) => {
                        assert(before + (seq![b@[i as int]] + rest) =~= out@ + rest);
                    },
                    None => {},
                }
            }
            i = i + 1;
        }
    }
    proof {
        assert(out@ + Seq::<u8>::empty() =~= out@);
    }
    Some(out)
}

pub fn parse_game(value: &str) -> (r: Result<Game, WorkspaceError>)
    ensures
        match r {
            Ok(g) => game_name(g) == value@,
            Err(e) => e == WorkspaceError::UnknownGame && forall|g: Game| game_name(g) != value@,
        },
{
    let v = value.to_owned();
    if v == "Skyrim".to_owned() {
        Ok(Game::Skyrim)
    } else if v == "SkyrimSE/AE".to_owned() {
        Ok(Game::SkyrimSeAe)
    } else if v == "Fallout4".to_owned() {
        Ok(Game::Fallout4)
    } else if v == "Starfield".to_owned() {
        Ok(Game::Starfield)
    } else {
        proof {
            assert forall|g: Game| game_name(g) != value@ by {
                match g {
                    Game::Skyrim => {},
                    Game::SkyrimSeAe => {},
                    Game::Fallout4 => {},
                    Game::Starfield => {},
                }
            }
        }
        Err(WorkspaceError::UnknownGame)
    }
}

pub fn parse_cache_policy(value: &str) -> (r: Result<CachePolicy, WorkspaceError>)
    ensures
        match r {
            Ok(p) => policy_name(p) == value@,
            Err(e) => e == WorkspaceError::UnknownCachePolicy && forall|p: CachePolicy| policy_name(p) != value@,
        },
{
    let v = value.to_owned();
    if v == "auto".to_owned() {
        Ok(CachePolicy::Auto)
    } else if v == "none".to_owned() {
        Ok(CachePolicy::Disabled)
    } else {
        proof {
            assert forall|p: CachePolicy| policy_name(p) != value@ by {
                match p {
                    CachePolicy::Auto => {},
                    CachePolicy::Disabled => {},
                }
            }
        }
        Err(WorkspaceError::UnknownCachePolicy)
    }
}


/// The index of the first `=` from `i`, or the length.
pub open spec fn eq_from(s: Seq<char>, i: int) -> int
    decreases s.len() - i,
{
    if i < 0 || i >= s.len() {
        s.len() as int
    } else if s[i] == '=' {
        i
    } else {
        eq_from(s, i + 1)
    }
}

/// A line split at its first `=` into a non-empty key and the value.
pub open spec fn key_value(l: Seq<char>) -> Result<(Seq<char>, Seq<char>), WorkspaceError> {
    let k = eq_from(l, 0);
    if k >= l.len() || k == 0 {
        Err(WorkspaceError::InvalidFormat)
    } else {
        Ok((l.take(k), l.skip(k + 1)))
    }
}

/// What the lines read so far say: version, name, game, root, tables,
/// load order, cache directory, cache policy.
pub type LoadV = (
    Option<u32>,
    Option<Seq<char>>,
    Option<Game>,
    Option<Seq<char>>,
    Seq<Seq<char>>,
    Seq<Seq<char>>,
    Option<Seq<char>>,
    Option<CachePolicy>,
);

pub open spec fn empty_load() -> LoadV {
    (None, None, None, None, Seq::empty(), Seq::empty(), None, None)
}

pub open spec fn game_of(v: Seq<char>) -> Result<Game, WorkspaceError> {
    if v == "Skyrim"@ {
        Ok(Game::Skyrim)
    } else if v == "SkyrimSE/AE"@ {
        Ok(Game::SkyrimSeAe)
    } else if v == "Fallout4"@ {
        Ok(Game::Fallout4)
    } else if v == "Starfield"@ {
        Ok(Game::Starfield)
    } else {
        Err(WorkspaceError::UnknownGame)
    }
}

pub open spec fn policy_of(v: Seq<char>) -> Result<CachePolicy, WorkspaceError> {
    if v == "auto"@ {
        Ok(CachePolicy::Auto)
    } else if v == "none"@ {
        Ok(CachePolicy::Disabled)
    } else {
        Err(WorkspaceError::UnknownCachePolicy)
    }
}

/// One line read: blank lines and unknown keys change nothing; a later value
/// of a single-valued key replaces the earlier one.
pub open spec fn load_step(st: LoadV, l: Seq<char>) -> Result<LoadV, WorkspaceError> {
    if blank(l) {
        Ok(st)
    } else {
        match key_value(l) {
            Err(e) => Err(e),
            Ok((k, v)) => {
                if k == "version"@ {
                match parse_u32_spec(encode_utf8(v)) {
                    Some(n) => Ok((Some(n), st.1, st.2, st.3, st.4, st.5, st.6, st.7)),
                    None => Err(WorkspaceError::InvalidFormat),
                }
            } else if k == "name"@ {
                match unescaped_value(v) {
                    Ok(x) => Ok((st.0, Some(x), st.2, st.3, st.4, st.5, st.6, st.7)),
                    Err(e) => Err(e),
                }
            } else if k == "game"@ {
                match game_of(v) {
                    Ok(g) => Ok((st.0, st.1, Some(g), st.3, st.4, st.5, st.6, st.7)),
                    Err(e) => Err(e),
                }
            } else if k == "root_dir"@ {
                match unescaped_value(v) {
                    Ok(x) => Ok((st.0, st.1, st.2, Some(x), st.4, st.5, st.6, st.7)),
                    Err(e) => Err(e),
                }
            } else if k == "strings_file"@ {
                match unescaped_value(v) {
                    Ok(x) => Ok((st.0, st.1, st.2, st.3, st.4.push(x), st.5, st.6, st.7)),
                    Err(e) => Err(e),
                }
            } else if k == "load_order"@ {
                match unescaped_value(v) {
                    Ok(x) => Ok((st.0, st.1, st.2, st.3, st.4, st.5.push(x), st.6, st.7)),
                    Err(e) => Err(e),
                }
            } else if k == "cache_dir"@ {
                match unescaped_value(v) {
                    Ok(x) => Ok((st.0, st.1, st.2, st.3, st.4, st.5, Some(x), st.7)),
                    Err(e) => Err(e),
                }
            } else if k == "cache_policy"@ {
                match policy_of(v) {
                    Ok(p) => Ok((st.0, st.1, st.2, st.3, st.4, st.5, st.6, Some(p))),
                    Err(e) => Err(e),
                }
            } else {
                Ok(st)
            }
            },
        }
    }
}

pub open spec fn load_lines(ls: Seq<Seq<char>>, n: int) -> Result<LoadV, WorkspaceError>
    decreases n,
{
    if n <= 0 {
        Ok(empty_load())
    } else {
        match load_lines(ls, n - 1) {
            Err(e) => Err(e),
            Ok(st) => load_step(st, ls[n - 1]),
        }
    }
}

/// The workspace a text describes, as its fields' views.
pub open spec fn workspace_of(text: Seq<char>) -> Result<
    (Seq<char>, Game, Seq<char>, Seq<Seq<char>>, Seq<Seq<char>>, Option<Seq<char>>, CachePolicy),
    WorkspaceError,
> {
    let ls = lines_from(text, 0);
    match load_lines(ls, ls.len() as int) {
        Err(e) => Err(e),
        Ok(st) => match st.0 {
            None => Err(WorkspaceError::MissingField("version")),
            Some(v) => if v != 1 {
                Err(WorkspaceError::UnsupportedVersion(v))
            } else {
                match (st.1, st.2, st.3) {
                    (None, _, _) => Err(WorkspaceError::MissingField("name")),
                    (Some(_), None, _) => Err(WorkspaceError::MissingField("game")),
                    (Some(_), Some(_), None) => Err(WorkspaceError::MissingField("root_dir")),
                    (Some(n), Some(g), Some(r)) => Ok((n, g, r, st.4, st.5, st.6, match st.7 {
                        Some(p) => p,
                        None => CachePolicy::Auto,
                    })),
                }
            }
        },
    }
}

pub open spec fn workspace_view(w: Workspace) -> (Seq<char>, Game, Seq<char>, Seq<Seq<char>>, Seq<Seq<char>>, Option<Seq<char>>, CachePolicy) {
    (
        w.name@,
        w.game,
        w.root_dir@,
        string_views(w.strings_files@),
        string_views(w.load_order@),
        match w.cache_dir {
            Some(d) => Some(d@),
            None => None,
        },
        w.cache_policy,
    )
}

fn split_key_value(line: &str) -> (r: Result<(String, String), WorkspaceError>)
    ensures
        match key_value(line@) {
            Ok((k, v)) => r matches Ok((k2, v2)) && k2@ == k && v2@ == v,
            Err(e) => r == Err::<(String, String), WorkspaceError>(e),
        },
{
    let mut key = String::new();
    let mut value = String::new();
    let mut found = false;
    let ghost mut at: int = 0;
    for c in it: line.chars()
        invariant
            it.seq() == line@,
            !found ==> key@ == line@.take(it.index()) && eq_from(line@, 0) == eq_from(line@, it.index()) && value@ == Seq::<char>::empty(),
            found ==> 0 <= at < it.index() && eq_from(line@, 0) == at && key@ == line@.take(at) && value@ == line@.subrange(at + 1, it.index()),
    {
        let ghost k = it.index();
        proof {
            assert(line@[k] == c);
        }
        if found {
            push_char(&mut value, c);
            proof {
                assert(value@ =~= line@.subrange(at + 1, k + 1));
            }
        } else if c == '=' {
            found = true;
            proof {
                at = k;
                assert(value@ =~= line@.subrange(at + 1, k + 1));
            }
        } else {
            push_char(&mut key, c);
            proof {
                assert(key@ =~= line@.take(k + 1));
            }
        }
    }
    proof {
        if found {
            assert(line@.skip(at + 1) =~= line@.subrange(at + 1, line@.len() as int));
        }
    }
    if !found || key.as_str().is_empty() {
        return Err(WorkspaceError::InvalidFormat);
    }
    Ok((key, value))
}

fn same(a: &String, b: &str) -> (r: bool)
    ensures
        r == (a@ == b@),
{
    *a == b.to_owned()
}

fn load_line(st: &mut (Option<u32>, Option<String>, Option<Game>, Option<String>, Vec<String>, Vec<String>, Option<String>, Option<CachePolicy>), line: &str) -> (r: Result<(), WorkspaceError>)
    ensures
        match load_step(load_view(*old(st)), line@) {
            Ok(v) => r is Ok && load_view(*final(st)) == v,
            Err(e) => r == Err::<(), WorkspaceError>(e),
        },
{
    if is_blank(line) {
        return Ok(());
    }
    let (k, v) = match split_key_value(line) {
        Ok(kv) => kv,
        Err(e) => return Err(e),
    };
    if same(&k, "version") {
        match parse_u32(v.as_str().as_bytes()) {
            Some(n) => {
                st.0 = Some(n);
            },
            None => return Err(WorkspaceError::InvalidFormat),
        }
    } else if same(&k, "name") {
        let x = match unescape_value(v.as_str()) {
            Ok(x) => x,
            Err(e) => return Err(e),
        };
        st.1 = Some(x);
    } else if same(&k, "game") {
        let g = match parse_game(v.as_str()) {
            Ok(g) => g,
            Err(e) => {
                proof {
                    assert(game_name(Game::Skyrim) != v@);
                    assert(game_name(Game::SkyrimSeAe) != v@);
                    assert(game_name(Game::Fallout4) != v@);
                    assert(game_name(Game::Starfield) != v@);
                }
                return Err(e);
            },
        };
        proof {
            assert(game_of(v@) == Ok::<Game, WorkspaceError>(g)) by {
                reveal_strlit("Skyrim");
                reveal_strlit("SkyrimSE/AE");
                reveal_strlit("Fallout4");
                reveal_strlit("Starfield");
                assert("Skyrim"@.len() == 6);
                assert("SkyrimSE/AE"@.len() == 11);
                assert("Fallout4"@.len() == 8);
                assert("Starfield"@.len() == 9);
                match g {
                    Game::Skyrim => {},
                    Game::SkyrimSeAe => {},
                    Game::Fallout4 => {},
                    Game::Starfield => {},
                }
            }
        }
        st.2 = Some(g);
    } else if same(&k, "root_dir") {
        let x = match unescape_value(v.as_str()) {
            Ok(x) => x,
            Err(e) => return Err(e),
        };
        st.3 = Some(x);
    } else if same(&k, "strings_file") {
        let x = match unescape_value(v.as_str()) {
            Ok(x) => x,
            Err(e) => return Err(e),
        };
        let ghost before = st.4@;
        st.4.push(x);
        proof {
            assert(string_views(st.4@) =~= string_views(before).push(x@));
        }
    } else if same(&k, "load_order") {
        let x = match unescape_value(v.as_str()) {
            Ok(x) => x,
            Err(e) => return Err(e),
        };
        let ghost before = st.5@;
        st.5.push(x);
        proof {
            assert(string_views(st.5@) =~= string_views(before).push(x@));
        }
    } else if same(&k, "cache_dir") {
        let x = match unescape_value(v.as_str()) {
            Ok(x) => x,
            Err(e) => return Err(e),
        };
        st.6 = Some(x);
    } else if same(&k, "cache_policy") {
        let p = match parse_cache_policy(v.as_str()) {
            Ok(p) => p,
            Err(e) => {
                proof {
                    assert(policy_name(CachePolicy::Auto) != v@);
                    assert(policy_name(CachePolicy::Disabled) != v@);
                }
                return Err(e);
            },
        };
        proof {
            assert(policy_of(v@) == Ok::<CachePolicy, WorkspaceError>(p)) by {
                reveal_strlit("auto");
                reveal_strlit("none");
                assert("auto"@[0] == 'a');
                assert("none"@[0] == 'n');
                match p {
                    CachePolicy::Auto => {},
                    CachePolicy::Disabled => {},
                }
            }
        }
        st.7 = Some(p);
    }
    Ok(())
}

pub open spec fn opt_text(o: Option<String>) -> Option<Seq<char>> {
    match o {
        Some(s) => Some(s@),
        None => None,
    }
}

pub open spec fn load_view(st: (Option<u32>, Option<String>, Option<Game>, Option<String>, Vec<String>, Vec<String>, Option<String>, Option<CachePolicy>)) -> LoadV {
    (st.0, opt_text(st.1), st.2, opt_text(st.3), string_views(st.4@), string_views(st.5@), opt_text(st.6), st.7)
}

impl Workspace {
    /// Reads a workspace from its stored form. Unknown keys are ignored; the
    /// version must be 1; name, game and root directory must be given.
    pub fn from_text(text: &str) -> (r: Result<Workspace, WorkspaceError>)
        ensures
            match workspace_of(text@) {
                Ok(v) => r matches Ok(w) && workspace_view(w) == v,
                Err(e) => r == Err::<Workspace, WorkspaceError>(e),
            },
    {
        let lines = split_lines(text);
        let ghost ls = lines_from(text@, 0);
        let mut st: (Option<u32>, Option<String>, Option<Game>, Option<String>, Vec<String>, Vec<String>, Option<String>, Option<CachePolicy>) =
            (None, None, None, None, Vec::new(), Vec::new(), None, None);
        proof {
            assert(load_view(st) =~= empty_load());
            assert(string_views(st.4@) =~= Seq::<Seq<char>>::empty());
            assert(string_views(st.5@) =~= Seq::<Seq<char>>::empty());
        }
        let n = lines.len();
        for i in 0..n
            invariant
                n == lines@.len(),
                ls == lines_from(text@, 0),
                lines@.map_values(|x: String| x@) == ls,
                load_lines(ls, i as int) == Ok::<LoadV, WorkspaceError>(load_view(st)),
        {
            proof {
                assert(ls[i as int] == lines@[i as int]@);
            }
            match load_line(&mut st, lines[i].as_str()) {
                Ok(()) => {},
                Err(e) => {
                    proof {
                        lemma_load_error_persists(ls, i + 1, n as int);
                    }
                    return Err(e);
                },
            }
        }
        let (version, name, game, root_dir, strings_files, load_order, cache_dir, policy) = st;
        match version {
            None => return Err(WorkspaceError::MissingField("version")),
            Some(v) => {
                if v != 1 {
                    return Err(WorkspaceError::UnsupportedVersion(v));
                }
            },
        }
        let name = match name {
            Some(x) => x,
            None => return Err(WorkspaceError::MissingField("name")),
        };
        let game = match game {
            Some(x) => x,
            None => return Err(WorkspaceError::MissingField("game")),
        };
        let root_dir = match root_dir {
            Some(x) => x,
            None => return Err(WorkspaceError::MissingField("root_dir")),
        };
        let cache_policy = match policy {
            Some(p) => p,
            None => CachePolicy::Auto,
        };
        Ok(Workspace { name, game, root_dir, strings_files, load_order, cache_dir, cache_policy })
    }
}

proof fn lemma_load_error_persists(ls: Seq<Seq<char>>, m: int, n: int)
    requires
        0 < m <= n,
        load_lines(ls, m) is Err,
    ensures
        load_lines(ls, n) == load_lines(ls, m),
    decreases n - m,
{
    if n > m {
        lemma_load_error_persists(ls, m, n - 1);
    }
}

} // verus!
