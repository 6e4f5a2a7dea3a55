//! Flat key-value configuration files.
//!
//! A file is a sequence of `key = value` lines. Parsing rejects malformed
//! lines and duplicate keys, then drops entries whose key starts with `_` or
//! `#` (disabled/commented entries).

use vstd::prelude::*;

use crate::error::Error;
use crate::strutil::{find_char, find_char_in, lemma_find_char, trim_ws, trim_ws_spec};

verus! {

/// View of a vector of strings as a sequence of character sequences.
pub open spec fn strs_view(v: Seq<String>) -> Seq<Seq<char>> {
    v.map_values(|s: String| s@)
}

/// View of a vector of string pairs as a sequence of character-sequence pairs.
pub open spec fn pairs_view(v: Seq<(String, String)>) -> Seq<(Seq<char>, Seq<char>)> {
    v.map_values(|p: (String, String)| (p.0@, p.1@))
}

/// The key/value pair a config line denotes, or `None` if the line is
/// malformed: the key is everything before the first `=`, the value
/// everything after it, both trimmed of surrounding whitespace; a line with
/// no `=`, or whose trimmed key or trimmed value is empty, is malformed.
pub open spec fn parse_line_spec(line: Seq<char>) -> Option<(Seq<char>, Seq<char>)> {
    match find_char(line, '=') {
        None => None,
        Some(i) => {
            let k = trim_ws_spec(line.subrange(0, i));
            let v = trim_ws_spec(line.subrange(i + 1, line.len() as int));
            if k.len() == 0 || v.len() == 0 {
                None
            } else {
                Some((k, v))
            }
        },
    }
}

/// A line holding only whitespace; such lines carry no entry.
pub open spec fn is_blank(line: Seq<char>) -> bool {
    trim_ws_spec(line).len() == 0
}

/// A line is acceptable if it is blank or parses.
pub open spec fn line_ok(line: Seq<char>) -> bool {
    is_blank(line) || parse_line_spec(line) is Some
}

/// Every line of the file is acceptable.
pub open spec fn lines_ok(lines: Seq<Seq<char>>) -> bool {
    forall|i: int| 0 <= i < lines.len() ==> line_ok(lines[i])
}

/// The pairs parsed from the non-blank lines of a file, in file order.
/// Meaningful when `lines_ok` holds; a malformed line contributes nothing.
pub open spec fn parsed_pairs(lines: Seq<Seq<char>>) -> Seq<(Seq<char>, Seq<char>)>
    decreases lines.len(),
{
    if lines.len() == 0 {
        Seq::empty()
    } else {
        let init = parsed_pairs(lines.drop_last());
        if is_blank(lines.last()) {
            init
        } else {
            match parse_line_spec(lines.last()) {
                Some(p) => init.push(p),
                None => init,
            }
        }
    }
}

/// No two pairs share a key.
pub open spec fn unique_keys(ps: Seq<(Seq<char>, Seq<char>)>) -> bool {
    forall|i: int, j: int| 0 <= i < j < ps.len() ==> ps[i].0 != ps[j].0
}

/// The key `k` appears twice.
pub open spec fn dup_of(ps: Seq<(Seq<char>, Seq<char>)>, k: Seq<char>) -> bool {
    exists|i: int, j: int| 0 <= i < j < ps.len() && ps[i].0 == k && ps[j].0 == k
}

/// Some pair has key `k`.
pub open spec fn has_key(ps: Seq<(Seq<char>, Seq<char>)>, k: Seq<char>) -> bool {
    exists|i: int| 0 <= i < ps.len() && ps[i].0 == k
}

/// The value paired with key `k` (meaningful when `has_key` holds and keys
/// are unique).
pub open spec fn value_of(ps: Seq<(Seq<char>, Seq<char>)>, k: Seq<char>) -> Seq<char> {
    ps[choose|i: int| 0 <= i < ps.len() && ps[i].0 == k].1
}

/// Keys starting with `_` or `#` are excluded from the effective mapping.
pub open spec fn is_excluded(k: Seq<char>) -> bool {
    k.len() > 0 && (k[0] == '_' || k[0] == '#')
}

/// The pairs that remain once excluded keys are dropped, in file order.
pub open spec fn effective_pairs(ps: Seq<(Seq<char>, Seq<char>)>) -> Seq<(Seq<char>, Seq<char>)>
    decreases ps.len(),
{
    if ps.len() == 0 {
        Seq::empty()
    } else {
        let init = effective_pairs(ps.drop_last());
        if is_excluded(ps.last().0) {
            init
        } else {
            init.push(ps.last())
        }
    }
}

/// The effective mapping keeps exactly the non-excluded keys, and keeps
/// keys unique when the input's keys are unique.
pub proof fn lemma_effective_pairs(ps: Seq<(Seq<char>, Seq<char>)>)
    ensures
        forall|k: Seq<char>|
            #[trigger] has_key(effective_pairs(ps), k) <==> (has_key(ps, k) && !is_excluded(k)),
        unique_keys(ps) ==> unique_keys(effective_pairs(ps)),
    decreases ps.len(),
{
    if ps.len() > 0 {
        let init = ps.drop_last();
        lemma_effective_pairs(init);
        let e = effective_pairs(ps);
        let ei = effective_pairs(init);
        assert(forall|i: int| 0 <= i < init.len() ==> init[i] == ps[i]);
        assert(ps.last() == ps[ps.len() - 1]);
        assert forall|k: Seq<char>| #[trigger] has_key(init, k) implies has_key(ps, k) by {
            let i = choose|i: int| 0 <= i < init.len() && init[i].0 == k;
            assert(ps[i].0 == k);
        }
        if is_excluded(ps.last().0) {
            assert(e == ei);
            assert forall|k: Seq<char>|
                has_key(ps, k) && !is_excluded(k) implies #[trigger] has_key(e, k) by {
                let i = choose|i: int| 0 <= i < ps.len() && ps[i].0 == k;
                assert(i < ps.len() - 1);
                assert(init[i].0 == k);
                assert(has_key(init, k));
            }
        } else {
            assert(forall|i: int| 0 <= i < ei.len() ==> e[i] == ei[i]);
            assert(e[e.len() - 1] == ps.last());
            assert forall|k: Seq<char>|
                #[trigger] has_key(e, k) implies (has_key(ps, k) && !is_excluded(k)) by {
                let i = choose|i: int| 0 <= i < e.len() && e[i].0 == k;
                if i < e.len() - 1 {
                    assert(ei[i].0 == k);
                    assert(has_key(ei, k));
                } else {
                    assert(ps[ps.len() - 1].0 == k);
                }
            }
            assert forall|k: Seq<char>|
                has_key(ps, k) && !is_excluded(k) implies #[trigger] has_key(e, k) by {
                if ps.last().0 == k {
                    assert(e[e.len() - 1].0 == k);
                } else {
                    let i = choose|i: int| 0 <= i < ps.len() && ps[i].0 == k;
                    assert(init[i].0 == k);
                    assert(has_key(init, k));
                    assert(has_key(ei, k));
                    let j = choose|j: int| 0 <= j < ei.len() && ei[j].0 == k;
                    assert(e[j].0 == k);
                }
            }
            if unique_keys(ps) {
                assert(unique_keys(init));
                assert(!has_key(init, ps.last().0)) by {
                    if has_key(init, ps.last().0) {
                        let i = choose|i: int|
                            0 <= i < init.len() && init[i].0 == ps.last().0;
                        assert(ps[i].0 == ps[ps.len() - 1].0);
                        assert(false);
                    }
                }
                assert(!has_key(ei, ps.last().0));
                assert forall|i: int, j: int|
                    0 <= i < j < e.len() implies e[i].0 != e[j].0 by {
                    if j < e.len() - 1 {
                        assert(e[i] == ei[i] && e[j] == ei[j]);
                    } else {
                        assert(e[j] == ps.last());
                        if e[i].0 == ps.last().0 {
                            assert(ei[i].0 == ps.last().0);
                            assert(has_key(ei, ps.last().0));
                            assert(false);
                        }
                    }
                }
            }
        }
    }
}

/// The validated key-value mapping of one config file.
pub struct KVConfig {
    kv: Vec<(String, String)>,
}

impl KVConfig {
    /// The entries, in file order, as character sequences.
    pub closed spec fn pairs(&self) -> Seq<(Seq<char>, Seq<char>)> {
        pairs_view(self.kv@)
    }

    /// The keys, in file order.
    pub open spec fn key_seq(&self) -> Seq<Seq<char>> {
        self.pairs().map_values(|p: (Seq<char>, Seq<char>)| p.0)
    }

    /// Internal invariant: no two entries share a key.
    pub open spec fn wf(&self) -> bool {
        unique_keys(self.pairs())
    }

    /// Parse one config line into a key/value pair.
    pub fn handle_line(line: &str) -> (r: Result<(String, String), Error>)
        ensures
            match r {
                Ok(p) => parse_line_spec(line@) == Some((p.0@, p.1@)),
                Err(e) => parse_line_spec(line@) is None && e is ConfigFormat,
            },
    {
        let n = line.unicode_len();
        match find_char_in(line, '=') {
            None => Err(Error::ConfigFormat(String::from_str("no delimiter found"))),
            Some(i) => {
                proof {
                    lemma_find_char(line@, '=');
                }
                let k = trim_ws(line.substring_char(0, i));
                let v = trim_ws(line.substring_char(i + 1, n));
                if k.unicode_len() == 0 {
                    Err(Error::ConfigFormat(String::from_str("empty key")))
                } else if v.unicode_len() == 0 {
                    Err(Error::ConfigFormat(String::from_str("empty value")))
                } else {
                    Ok((String::from_str(k), String::from_str(v)))
                }
            },
        }
    }

    /// Parse a whole file, given as its lines. Succeeds exactly when every
    /// line is blank or well-formed and no key is repeated; the resulting
    /// mapping holds the non-excluded pairs in file order.
    pub fn new(lines: &Vec<String>) -> (r: Result<KVConfig, Error>)
        ensures
            match r {
                Ok(cfg) => {
                    &&& lines_ok(strs_view(lines@))
                    &&& unique_keys(parsed_pairs(strs_view(lines@)))
                    &&& cfg.wf()
                    &&& cfg.pairs() == effective_pairs(parsed_pairs(strs_view(lines@)))
                },
                Err(e) => match e {
                    Error::ConfigFormat(_) => !lines_ok(strs_view(lines@)),
                    Error::DuplicateKey(k) => lines_ok(strs_view(lines@)) && dup_of(
                        parsed_pairs(strs_view(lines@)),
                        k@,
                    ),
                    _ => false,
                },
            },
    {
        let ghost lv = strs_view(lines@);
        let mut parsed: Vec<(String, String)> = Vec::new();
        let mut idx: usize = 0;
        while idx < lines.len()
            invariant
                idx <= lines.len(),
                lv == strs_view(lines@),
                forall|i: int| 0 <= i < idx ==> line_ok(lv[i]),
                pairs_view(parsed@) == parsed_pairs(lv.subrange(0, idx as int)),
            decreases lines.len() - idx,
        {
            let line: &String = &lines[idx];
            proof {
                assert(lv[idx as int] == line@);
            }
            let t = trim_ws(line.as_str());
            if t.unicode_len() == 0 {
                proof {
                    assert(is_blank(lv[idx as int]));
                }
            } else {
                match Self::handle_line(line.as_str()) {
                    Ok(p) => {
                        parsed.push(p);
                    },
                    Err(e) => {
                        proof {
                            assert(!line_ok(lv[idx as int]));
                            assert(!lines_ok(lv));
                        }
                        return Err(e);
                    },
                }
            }
            proof {
                let cur = lv.subrange(0, idx + 1);
                assert(cur.drop_last() =~= lv.subrange(0, idx as int));
                assert(cur.last() == lv[idx as int]);
                if !is_blank(lv[idx as int]) {
                    assert(pairs_view(parsed@) =~= parsed_pairs(cur));
                }
            }
            idx = idx + 1;
        }
        proof {
            assert(lv.subrange(0, lines.len() as int) =~= lv);
        }
        let ghost all = parsed_pairs(lv);
        assert(pairs_view(parsed@) == all);

        // Duplicate keys are rejected before any filtering.
        let mut i: usize = 0;
        while i < parsed.len()
            invariant
                i <= parsed.len(),
                lv == strs_view(lines@),
                all == parsed_pairs(lv),
                pairs_view(parsed@) == all,
                lines_ok(lv),
                forall|a: int, b: int| 0 <= a < b < all.len() && a < i ==> all[a].0 != all[b].0,
            decreases parsed.len() - i,
        {
            let mut j: usize = i + 1;
            while j < parsed.len()
                invariant
                    i < j <= parsed.len(),
                    lv == strs_view(lines@),
                    all == parsed_pairs(lv),
                    pairs_view(parsed@) == all,
                    lines_ok(lv),
                    forall|b: int| i < b < j ==> all[i as int].0 != all[b].0,
                decreases parsed.len() - j,
            {
                if crate::strutil::str_eq(parsed[i].0.as_str(), parsed[j].0.as_str()) {
                    let dup = parsed[i].0.clone();
                    proof {
                        assert(all[i as int].0 == dup@);
                        assert(all[j as int].0 == dup@);
                        assert(dup_of(all, dup@));
                    }
                    return Err(Error::DuplicateKey(dup));
                }
                j = j + 1;
            }
            i = i + 1;
        }
        assert(unique_keys(all));

        // Drop disabled/commented entries.
        let mut kv: Vec<(String, String)> = Vec::new();
        let mut idx2: usize = 0;
        while idx2 < parsed.len()
            invariant
                idx2 <= parsed.len(),
                lv == strs_view(lines@),
                all == parsed_pairs(lv),
                pairs_view(parsed@) == all,
                lines_ok(lv),
                unique_keys(all),
                pairs_view(kv@) == effective_pairs(all.subrange(0, idx2 as int)),
            decreases parsed.len() - idx2,
        {
            let p: &(String, String) = &parsed[idx2];
            let klen = p.0.as_str().unicode_len();
            let mut excl = false;
            if klen > 0 {
                let c0 = p.0.as_str().get_char(0);
                excl = c0 == '_' || c0 == '#';
            }
            proof {
                assert(excl == is_excluded(all[idx2 as int].0));
            }
            if !excl {
                kv.push((p.0.clone(), p.1.clone()));
            }
            proof {
                let cur = all.subrange(0, idx2 + 1);
                assert(cur.drop_last() =~= all.subrange(0, idx2 as int));
                assert(cur.last() == all[idx2 as int]);
                if !excl {
                    assert(pairs_view(kv@) =~= effective_pairs(cur));
                }
            }
            idx2 = idx2 + 1;
        }
        proof {
            assert(all.subrange(0, parsed.len() as int) =~= all);
            lemma_effective_pairs(all);
        }
        Ok(KVConfig { kv })
    }

    /// Number of effective entries.
    pub fn len(&self) -> (r: usize)
        ensures
            r == self.pairs().len(),
    {
        self.kv.len()
    }

    /// The key of the entry at position `i`.
    pub fn key_at(&self, i: usize) -> (r: &String)
        requires
            i < self.pairs().len(),
        ensures
            r@ == self.pairs()[i as int].0,
    {
        &self.kv[i].0
    }

    /// The value of the entry at position `i`.
    pub fn value_at(&self, i: usize) -> (r: &String)
        requires
            i < self.pairs().len(),
        ensures
            r@ == self.pairs()[i as int].1,
    {
        &self.kv[i].1
    }

    /// Whether some entry has key `key`.
    pub fn contains_key(&self, key: &str) -> (r: bool)
        ensures
            r == has_key(self.pairs(), key@),
    {
        let mut i: usize = 0;
        while i < self.kv.len()
            invariant
                i <= self.kv.len(),
                forall|a: int| 0 <= a < i ==> self.pairs()[a].0 != key@,
            decreases self.kv.len() - i,
        {
            if crate::strutil::str_eq(self.kv[i].0.as_str(), key) {
                proof {
                    assert(self.pairs()[i as int].0 == key@);
                }
                return true;
            }
            i = i + 1;
        }
        false
    }

    /// The value stored under `key`, if any.
    pub fn get(&self, key: &str) -> (r: Option<&String>)
        requires
            self.wf(),
        ensures
            match r {
                Some(v) => has_key(self.pairs(), key@) && v@ == value_of(self.pairs(), key@),
                None => !has_key(self.pairs(), key@),
            },
    {
        let mut i: usize = 0;
        while i < self.kv.len()
            invariant
                i <= self.kv.len(),
                self.wf(),
                forall|a: int| 0 <= a < i ==> self.pairs()[a].0 != key@,
            decreases self.kv.len() - i,
        {
            if crate::strutil::str_eq(self.kv[i].0.as_str(), key) {
                proof {
                    assert(self.pairs()[i as int].0 == key@);
                    let w = choose|w: int|
                        0 <= w < self.pairs().len() && self.pairs()[w].0 == key@;
                    assert(w == i as int);
                }
                return Some(&self.kv[i].1);
            }
            i = i + 1;
        }
        None
    }

    /// The keys, in file order.
    pub fn keys(&self) -> (r: Vec<String>)
        ensures
            strs_view(r@) == self.key_seq(),
    {
        let mut out: Vec<String> = Vec::new();
        let mut i: usize = 0;
        while i < self.kv.len()
            invariant
                i <= self.kv.len(),
                out@.len() == i,
                forall|j: int| 0 <= j < i ==> out@[j]@ == self.pairs()[j].0,
            decreases self.kv.len() - i,
        {
            out.push(self.kv[i].0.clone());
            i = i + 1;
        }
        proof {
            assert(strs_view(out@) =~= self.key_seq());
        }
        out
    }

    /// Find keys that are in `existing_keys` but not in this config; those
    /// are the deletion candidates.
    pub fn missing_keys(&self, existing_keys: &Vec<String>) -> (r: Vec<String>)
        ensures
            strs_view(r@) == missing_of(self.pairs(), strs_view(existing_keys@)),
    {
        let ghost ev = strs_view(existing_keys@);
        let mut out: Vec<String> = Vec::new();
        let mut i: usize = 0;
        while i < existing_keys.len()
            invariant
                i <= existing_keys.len(),
                ev == strs_view(existing_keys@),
                strs_view(out@) == missing_of(self.pairs(), ev.subrange(0, i as int)),
            decreases existing_keys.len() - i,
        {
            let k: &String = &existing_keys[i];
            proof {
                assert(ev[i as int] == k@);
            }
            let present = self.contains_key(k.as_str());
            if !present {
                out.push(k.clone());
            }
            proof {
                let cur = ev.subrange(0, i + 1);
                assert(cur.drop_last() =~= ev.subrange(0, i as int));
                assert(cur.last() == ev[i as int]);
                if !present {
                    assert(strs_view(out@) =~= missing_of(self.pairs(), cur));
                }
            }
            i = i + 1;
        }
        proof {
            assert(ev.subrange(0, existing_keys.len() as int) =~= ev);
        }
        out
    }
}

/// The keys of `existing` that have no entry in `ps`, in input order.
pub open spec fn missing_of(
    ps: Seq<(Seq<char>, Seq<char>)>,
    existing: Seq<Seq<char>>,
) -> Seq<Seq<char>>
    decreases existing.len(),
{
    if existing.len() == 0 {
        Seq::empty()
    } else {
        let init = missing_of(ps, existing.drop_last());
        if has_key(ps, existing.last()) {
            init
        } else {
            init.push(existing.last())
        }
    }
}

/// `missing_of` holds exactly the existing keys without a local entry.
pub proof fn lemma_missing_of(ps: Seq<(Seq<char>, Seq<char>)>, existing: Seq<Seq<char>>)
    ensures
        forall|k: Seq<char>|
            #[trigger] missing_of(ps, existing).contains(k) <==> (existing.contains(k)
                && !has_key(ps, k)),
    decreases existing.len(),
{
    if existing.len() > 0 {
        let init = existing.drop_last();
        lemma_missing_of(ps, init);
        let m = missing_of(ps, existing);
        let mi = missing_of(ps, init);
        assert(forall|i: int| 0 <= i < init.len() ==> init[i] == existing[i]);
        assert(existing.last() == existing[existing.len() - 1]);
        assert forall|k: Seq<char>| #[trigger] init.contains(k) implies existing.contains(k) by {
            let i = choose|i: int| 0 <= i < init.len() && init[i] == k;
            assert(existing[i] == k);
        }
        assert forall|k: Seq<char>|
            #[trigger] existing.contains(k) implies (init.contains(k) || k == existing.last()) by {
            let i = choose|i: int| 0 <= i < existing.len() && existing[i] == k;
            if i < existing.len() - 1 {
                assert(init[i] == k);
            }
        }
        if has_key(ps, existing.last()) {
            assert(m == mi);
        } else {
            assert(forall|i: int| 0 <= i < mi.len() ==> m[i] == mi[i]);
            assert(m[m.len() - 1] == existing.last());
            assert forall|k: Seq<char>|
                #[trigger] m.contains(k) implies (existing.contains(k) && !has_key(ps, k)) by {
                let i = choose|i: int| 0 <= i < m.len() && m[i] == k;
                if i < m.len() - 1 {
                    assert(mi[i] == k);
                    assert(mi.contains(k));
                } else {
                    assert(k == existing.last());
                }
            }
            assert forall|k: Seq<char>|
                existing.contains(k) && !has_key(ps, k) implies #[trigger] m.contains(k) by {
                if k == existing.last() {
                    assert(m[m.len() - 1] == k);
                } else {
                    assert(init.contains(k));
                    assert(mi.contains(k));
                    let i = choose|i: int| 0 <= i < mi.len() && mi[i] == k;
                    assert(m[i] == k);
                }
            }
        }
    }
}

} // verus!
