//! A small key/value configuration store: lookup by key, rendering to
//! `key=value` lines, and parsing such lines back.
//!
//! Parsing works line by line: each line is split at `\n`, trimmed of
//! ASCII whitespace, and kept only when its first `=` sits strictly
//! inside the trimmed text; the value then runs to the next `=` or the
//! end of the line.

use vstd::prelude::*;
use vstd::string::StrSliceExecFns;
use vstd::string::StringExecFns;

use crate::tokenizer::{is_ws, is_ws_char};

verus! {

/// The first value stored under `key`, if any.
pub open spec fn spec_lookup(vals: Seq<(String, String)>, key: Seq<char>) -> Option<Seq<char>>
    decreases vals.len(),
{
    if vals.len() == 0 {
        None
    } else if vals[0].0@ == key {
        Some(vals[0].1@)
    } else {
        spec_lookup(vals.drop_first(), key)
    }
}

/// The rendering of the stored pairs, one `key=value` line each.
pub open spec fn spec_render(vals: Seq<(String, String)>) -> Seq<char>
    decreases vals.len(),
{
    if vals.len() == 0 {
        Seq::empty()
    } else {
        vals[0].0@ + "="@ + vals[0].1@ + "\n"@ + spec_render(vals.drop_first())
    }
}

/// First index at or after `i` that holds a line break, or the end.
pub open spec fn line_end(s: Seq<char>, i: nat) -> nat
    decreases s.len() - i,
{
    if i < s.len() && s[i as int] != '\n' {
        line_end(s, i + 1)
    } else {
        i
    }
}

/// First index in `[i, e)` that does not hold whitespace.
pub open spec fn ws_fwd(s: Seq<char>, i: nat, e: nat) -> nat
    decreases e - i,
{
    if i < e && is_ws(s[i as int]) {
        ws_fwd(s, i + 1, e)
    } else {
        i
    }
}

/// End of `[i, e)` with trailing whitespace dropped.
pub open spec fn ws_back(s: Seq<char>, i: nat, e: nat) -> nat
    decreases e,
{
    if i < e && is_ws(s[(e - 1) as int]) {
        ws_back(s, i, (e - 1) as nat)
    } else {
        e
    }
}

/// First index in `[i, e)` that holds `=`, or `e`.
pub open spec fn find_eq(s: Seq<char>, i: nat, e: nat) -> nat
    decreases e - i,
{
    if i < e && s[i as int] != '=' {
        find_eq(s, i + 1, e)
    } else {
        i
    }
}

/// The entry of the line `[i, e)`: trim it, require the first `=`
/// strictly inside, and cut the value at the next `=`.
pub open spec fn line_entry(s: Seq<char>, i: nat, e: nat) -> Option<(Seq<char>, Seq<char>)> {
    let a = ws_fwd(s, i, e);
    let b = ws_back(s, a, e);
    let p = find_eq(s, a, b);
    if a < p && p + 1 < b {
        let q = find_eq(s, (p + 1) as nat, b);
        Some((s.subrange(a as int, p as int), s.subrange((p + 1) as int, q as int)))
    } else {
        None
    }
}

/// All entries of the lines of `s[i..]`.
pub open spec fn spec_read(s: Seq<char>, i: nat) -> Seq<(Seq<char>, Seq<char>)>
    decreases s.len() - i,
{
    if i >= s.len() {
        Seq::empty()
    } else {
        let e = line_end(s, i);
        let head = match line_entry(s, i, e) {
            Some(kv) => seq![kv],
            None => Seq::empty(),
        };
        if e < s.len() && e >= i {
            // `lemma_line_end` shows `e >= i` always holds here.
            head + spec_read(s, (e + 1) as nat)
        } else {
            head
        }
    }
}

/// The stored pairs seen as plain character sequences.
pub open spec fn entry_views(vals: Seq<(String, String)>) -> Seq<(Seq<char>, Seq<char>)> {
    vals.map_values(|p: (String, String)| (p.0@, p.1@))
}

pub proof fn lemma_line_end(s: Seq<char>, i: nat)
    requires
        i <= s.len(),
    ensures
        i <= line_end(s, i) <= s.len(),
        line_end(s, i) < s.len() ==> s[line_end(s, i) as int] == '\n',
        forall|n: int| i <= n < line_end(s, i) ==> s[n] != '\n',
    decreases s.len() - i,
{
    if i < s.len() && s[i as int] != '\n' {
        lemma_line_end(s, i + 1);
    }
}

/// Provides a `get` function to return values associated with the
/// specified key.
pub trait ValueGetter {
    fn get(&self, s: &str) -> Option<String>;
}

/// Render a configuration to text.
pub trait ConfigWriter {
    fn write(&self, config: Config) -> String;
}

/// Read a configuration back from text.
pub trait ConfigReader {
    fn read(&self, from: &str) -> Config;
}

/// Configuration for an application: an ordered list of key/value
/// pairs.
pub struct Config {
    pub values: Vec<(String, String)>,
}

fn str_eq(a: &str, b: &str) -> (r: bool)
    ensures
        r == (a@ == b@),
{
    let an = a.unicode_len();
    let bn = b.unicode_len();
    if an != bn {
        return false;
    }
    let mut i: usize = 0;
    while i < an
        invariant
            i <= an,
            an == a@.len(),
            bn == b@.len(),
            an == bn,
            forall|t: int| 0 <= t < i ==> a@[t] == b@[t],
        decreases an - i,
    {
        if a.get_char(i) != b.get_char(i) {
            return false;
        }
        i = i + 1;
    }
    proof {
        assert(a@ =~= b@);
    }
    true
}

impl Config {
    pub fn new(values: Vec<(String, String)>) -> (r: Config)
        ensures
            r.values@ == values@,
    {
        Config { values }
    }

    /// The value stored under the first matching key.
    pub fn get(&self, s: &str) -> (r: Option<String>)
        ensures
            match spec_lookup(self.values@, s@) {
                Some(v) => r matches Some(out) && out@ == v,
                None => r is None,
            },
    {
        let ghost vals = self.values@;
        let n = self.values.len();
        let mut i: usize = 0;
        proof {
            assert(vals.subrange(0, n as int) =~= vals);
        }
        while i < n
            invariant
                vals == self.values@,
                n == vals.len(),
                i <= n,
                spec_lookup(vals, s@) == spec_lookup(vals.subrange(i as int, n as int), s@),
            decreases n - i,
        {
            let pair = &self.values[i];
            proof {
                assert(vals.subrange(i as int, n as int)[0] == vals[i as int]);
            }
            if str_eq(pair.0.as_str(), s) {
                return Some(pair.1.clone());
            }
            proof {
                assert(vals.subrange(i as int, n as int).drop_first() =~= vals.subrange(
                    i + 1 as int,
                    n as int,
                ));
            }
            i = i + 1;
        }
        proof {
            assert(vals.subrange(n as int, n as int) =~= Seq::<(String, String)>::empty());
        }
        None
    }
}

impl ValueGetter for Config {
    fn get(&self, s: &str) -> Option<String> {
        Config::get(self, s)
    }
}

/// A service for managing a configuration.
pub struct KeyValueConfigService {}

impl KeyValueConfigService {
    pub fn new() -> (r: KeyValueConfigService) {
        KeyValueConfigService {}
    }

    /// Render the configuration as one `key=value` line per pair.
    pub fn write(&self, config: Config) -> (r: String)
        ensures
            r@ == spec_render(config.values@),
    {
        let ghost vals = config.values@;
        let n = config.values.len();
        let mut out = String::new();
        let mut i: usize = 0;
        proof {
            assert(vals.subrange(0, n as int) =~= vals);
        }
        while i < n
            invariant
                vals == config.values@,
                n == vals.len(),
                i <= n,
                out@ + spec_render(vals.subrange(i as int, n as int)) == spec_render(vals),
            decreases n - i,
        {
            let ghost out0 = out@;
            let pair = &config.values[i];
            out.append(pair.0.as_str());
            out.append("=");
            out.append(pair.1.as_str());
            out.append("\n");
            proof {
                let sub = vals.subrange(i as int, n as int);
                assert(sub[0] == vals[i as int]);
                assert(sub.drop_first() =~= vals.subrange(i + 1 as int, n as int));
                let rest = spec_render(vals.subrange(i + 1 as int, n as int));
                let k = vals[i as int].0@;
                let v = vals[i as int].1@;
                assert(spec_render(sub) == k + "="@ + v + "\n"@ + rest);
                assert(out@ + rest =~= out0 + (k + "="@ + v + "\n"@ + rest));
            }
            i = i + 1;
        }
        proof {
            assert(vals.subrange(n as int, n as int) =~= Seq::<(String, String)>::empty());
            assert(out@ + Seq::<char>::empty() =~= out@);
        }
        out
    }

    /// Parse `key=value` lines back into a configuration.
    pub fn read(&self, from: &str) -> (r: Config)
        ensures
            entry_views(r.values@) == spec_read(from@, 0),
    {
        let ghost s = from@;
        let n = from.unicode_len();
        let mut values: Vec<(String, String)> = Vec::new();
        let mut i: usize = 0;
        proof {
            assert(entry_views(values@) =~= Seq::<(Seq<char>, Seq<char>)>::empty());
            assert(Seq::<(Seq<char>, Seq<char>)>::empty() + spec_read(s, 0) =~= spec_read(s, 0));
        }
        while i < n
            invariant
                s == from@,
                n == s.len(),
                i <= n,
                entry_views(values@) + spec_read(s, i as nat) == spec_read(s, 0),
            decreases n - i,
        {
            let ghost i0 = i as nat;
            proof {
                lemma_line_end(s, i0);
            }
            // End of the current line.
            let mut e: usize = i;
            while e < n && from.get_char(e) != '\n'
                invariant
                    s == from@,
                    n == s.len(),
                    i0 <= e as nat <= n,
                    line_end(s, i0) == line_end(s, e as nat),
                decreases n - e,
            {
                e = e + 1;
            }
            // Trim the line on both sides.
            let mut a: usize = i;
            while a < e && is_ws_char(from.get_char(a))
                invariant
                    s == from@,
                    n == s.len(),
                    a <= e <= n,
                    ws_fwd(s, i0, e as nat) == ws_fwd(s, a as nat, e as nat),
                decreases e - a,
            {
                a = a + 1;
            }
            let mut b: usize = e;
            while b > a && is_ws_char(from.get_char(b - 1))
                invariant
                    s == from@,
                    n == s.len(),
                    a <= b <= e <= n,
                    ws_back(s, a as nat, e as nat) == ws_back(s, a as nat, b as nat),
                decreases b,
            {
                b = b - 1;
            }
            // First `=` of the trimmed line.
            let mut p: usize = a;
            while p < b && from.get_char(p) != '='
                invariant
                    s == from@,
                    n == s.len(),
                    a <= p <= b <= n,
                    find_eq(s, a as nat, b as nat) == find_eq(s, p as nat, b as nat),
                decreases b - p,
            {
                p = p + 1;
            }
            if a < p && b - p > 1 {
                // The value ends at the next `=`, or at the line's end.
                let mut q: usize = p + 1;
                while q < b && from.get_char(q) != '='
                    invariant
                        s == from@,
                        n == s.len(),
                        p + 1 <= q <= b <= n,
                        find_eq(s, (p + 1) as nat, b as nat) == find_eq(s, q as nat, b as nat),
                    decreases b - q,
                {
                    q = q + 1;
                }
                let ghost prev = values@;
                let key = from.substring_char(a, p).to_owned();
                let val = from.substring_char(p + 1, q).to_owned();
                values.push((key, val));
                proof {
                    assert(entry_views(values@) =~= entry_views(prev) + seq![
                        (s.subrange(a as int, p as int), s.subrange((p + 1) as int, q as int)),
                    ]);
                }
            }
            proof {
                let e0 = line_end(s, i0);
                let head = match line_entry(s, i0, e0) {
                    Some(kv) => seq![kv],
                    None => Seq::<(Seq<char>, Seq<char>)>::empty(),
                };
                if e0 < s.len() {
                    assert(spec_read(s, i0) == head + spec_read(s, (e0 + 1) as nat));
                    assert((entry_views(values@)) + spec_read(s, (e0 + 1) as nat) =~= spec_read(
                        s,
                        0,
                    ));
                } else {
                    assert(spec_read(s, i0) == head);
                    assert(spec_read(s, n as nat) =~= Seq::<(Seq<char>, Seq<char>)>::empty());
                    assert((entry_views(values@)) + spec_read(s, n as nat) =~= spec_read(s, 0));
                }
            }
            if e < n {
                i = e + 1;
            } else {
                i = n;
            }
        }
        proof {
            assert(spec_read(s, i as nat) =~= Seq::<(Seq<char>, Seq<char>)>::empty());
            assert(entry_views(values@) + Seq::<(Seq<char>, Seq<char>)>::empty() =~= entry_views(
                values@,
            ));
        }
        Config::new(values)
    }
}

impl ConfigWriter for KeyValueConfigService {
    fn write(&self, config: Config) -> String {
        KeyValueConfigService::write(self, config)
    }
}

impl ConfigReader for KeyValueConfigService {
    fn read(&self, from: &str) -> Config {
        KeyValueConfigService::read(self, from)
    }
}

} // verus!
