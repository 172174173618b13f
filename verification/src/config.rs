//! The mapping registry: which subdirectory of the host repository tracks
//! which remote and branch.  The registry is keyed by the subdirectory
//! name, mutated in memory, and persisted as `gh-sync.<name>.<field>`
//! entries in the engine's local key/value configuration; the codec for
//! that backend lives here as well.

use vstd::prelude::*;
use crate::strutil::{find_char, index_of, lemma_index_of, str_eq};

verus! {

/// Mathematical content of one mapping.
#[verifier::ext_equal]
pub ghost struct MappingV {
    pub subdir: Seq<char>,
    pub remote: Seq<char>,
    pub url: Seq<char>,
    pub branch: Seq<char>,
}

/// One persisted association: the subdirectory `subdir` of the host
/// repository mirrors `branch` of the remote repository at `url`,
/// addressed through the short remote name `remote`.  The subdirectory
/// doubles as the registry key.
#[derive(Debug)]
pub struct Mapping {
    pub subdir: String,
    pub remote: String,
    pub url: String,
    pub branch: String,
}

impl View for Mapping {
    type V = MappingV;

    open spec fn view(&self) -> MappingV {
        MappingV {
            subdir: self.subdir@,
            remote: self.remote@,
            url: self.url@,
            branch: self.branch@,
        }
    }
}

impl DeepView for Mapping {
    type V = MappingV;

    open spec fn deep_view(&self) -> MappingV {
        self@
    }
}

impl Clone for Mapping {
    fn clone(&self) -> (r: Self)
        ensures
            r@ == self@,
    {
        Mapping {
            subdir: self.subdir.clone(),
            remote: self.remote.clone(),
            url: self.url.clone(),
            branch: self.branch.clone(),
        }
    }
}

/// Index of the first mapping named `name`, or `-1` when absent.
pub open spec fn index_of_name(s: Seq<MappingV>, name: Seq<char>) -> int
    decreases s.len(),
{
    if s.len() == 0 {
        -1
    } else if s[0].subdir == name {
        0
    } else {
        let r = index_of_name(s.drop_first(), name);
        if r < 0 {
            -1
        } else {
            r + 1
        }
    }
}

/// Registry lookup by name.
pub open spec fn spec_get(s: Seq<MappingV>, name: Seq<char>) -> Option<MappingV> {
    if index_of_name(s, name) >= 0 {
        Some(s[index_of_name(s, name)])
    } else {
        None
    }
}

/// The registry invariant: no two mappings share a name.
pub open spec fn names_unique(s: Seq<MappingV>) -> bool {
    forall|i: int, j: int| 0 <= i < j < s.len() ==> s[i].subdir != s[j].subdir
}

/// Insert `m`, or replace the mapping that already bears its name.
pub open spec fn spec_upsert(s: Seq<MappingV>, m: MappingV) -> Seq<MappingV> {
    let idx = index_of_name(s, m.subdir);
    if idx >= 0 {
        s.update(idx, m)
    } else {
        s.push(m)
    }
}

/// Drop the mapping named `name` if present.
pub open spec fn spec_remove(s: Seq<MappingV>, name: Seq<char>) -> Seq<MappingV> {
    let idx = index_of_name(s, name);
    if idx >= 0 {
        s.remove(idx)
    } else {
        s
    }
}

/// `index_of_name` returns either `-1` (and then no mapping bears the
/// name) or the least index of a mapping bearing it.
pub proof fn lemma_index_of_name(s: Seq<MappingV>, name: Seq<char>)
    ensures
        index_of_name(s, name) >= 0 ==> index_of_name(s, name) < s.len() && s[index_of_name(
            s,
            name,
        )].subdir == name,
        index_of_name(s, name) == -1 <==> forall|i: int| 0 <= i < s.len() ==> s[i].subdir != name,
        forall|i: int| 0 <= i < index_of_name(s, name) ==> s[i].subdir != name,
    decreases s.len(),
{
    if s.len() > 0 && s[0].subdir != name {
        lemma_index_of_name(s.drop_first(), name);
        assert forall|i: int| 0 <= i < s.len() && index_of_name(s, name) == -1 implies s[i].subdir
            != name by {
            if i > 0 {
                assert(s.drop_first()[i - 1] == s[i]);
            }
        }
        assert forall|i: int| 0 <= i < index_of_name(s, name) implies s[i].subdir != name by {
            if i > 0 {
                assert(s.drop_first()[i - 1] == s[i]);
            }
        }
    }
}

/// Under the registry invariant, upsert leaves exactly one mapping under
/// `m`'s name — and it is `m` — while every other name is untouched.
pub proof fn lemma_upsert_get(s: Seq<MappingV>, m: MappingV)
    requires
        names_unique(s),
    ensures
        names_unique(spec_upsert(s, m)),
        spec_get(spec_upsert(s, m), m.subdir) == Some(m),
        forall|n: Seq<char>| n != m.subdir ==> #[trigger] spec_get(spec_upsert(s, m), n) == spec_get(s, n),
{
    let t = spec_upsert(s, m);
    lemma_index_of_name(s, m.subdir);
    assert forall|i: int, j: int| 0 <= i < j < t.len() implies t[i].subdir != t[j].subdir by {
        if index_of_name(s, m.subdir) >= 0 {
            let idx = index_of_name(s, m.subdir);
            if i != idx && j != idx {
                assert(t[i] == s[i] && t[j] == s[j]);
            } else if i == idx {
                assert(t[j] == s[j] && s[j].subdir != m.subdir);
            } else {
                assert(t[i] == s[i] && s[i].subdir != m.subdir);
            }
        } else {
            if j == s.len() {
                assert(t[i] == s[i] && s[i].subdir != m.subdir);
            } else {
                assert(t[i] == s[i] && t[j] == s[j]);
            }
        }
    }
    lemma_index_of_name(t, m.subdir);
    if index_of_name(t, m.subdir) != -1 {
        let k = index_of_name(t, m.subdir);
        if index_of_name(s, m.subdir) >= 0 {
            let idx = index_of_name(s, m.subdir);
            if k != idx {
                assert(t[idx].subdir == m.subdir);
                assert(t[k].subdir == m.subdir);
                assert(false);
            }
        } else {
            if k != s.len() {
                assert(s[k].subdir == m.subdir);
                assert(false);
            }
        }
    } else {
        assert(t[t.len() - 1].subdir == m.subdir || t[index_of_name(s, m.subdir)].subdir
            == m.subdir);
        assert(false);
    }
    assert forall|n: Seq<char>| n != m.subdir implies #[trigger] spec_get(t, n) == spec_get(s, n) by {
        lemma_index_of_name(s, n);
        lemma_index_of_name(t, n);
        let ks = index_of_name(s, n);
        let kt = index_of_name(t, n);
        if index_of_name(s, m.subdir) >= 0 {
            let idx = index_of_name(s, m.subdir);
            assert(forall|i: int| 0 <= i < t.len() && i != idx ==> t[i] == s[i]);
            if ks >= 0 {
                assert(ks != idx);
                assert(t[ks].subdir == n);
                assert(kt >= 0);
                if kt != ks {
                    assert(kt != idx);
                    assert(s[kt].subdir == n);
                    if kt < ks {
                        assert(false);
                    } else {
                        assert(false);
                    }
                }
            } else {
                if kt >= 0 {
                    assert(kt != idx);
                    assert(s[kt].subdir == n);
                    assert(false);
                }
            }
        } else {
            assert(forall|i: int| 0 <= i < s.len() ==> t[i] == s[i]);
            if ks >= 0 {
                assert(t[ks].subdir == n);
                assert(kt >= 0);
                if kt != ks {
                    if kt < s.len() {
                        assert(s[kt].subdir == n);
                        assert(false);
                    } else {
                        assert(t[kt].subdir == m.subdir);
                        assert(false);
                    }
                }
            } else {
                if kt >= 0 {
                    if kt < s.len() {
                        assert(s[kt].subdir == n);
                        assert(false);
                    } else {
                        assert(t[kt].subdir == m.subdir);
                        assert(false);
                    }
                }
            }
        }
    }
}

/// Under the registry invariant, removal drops exactly the mapping named
/// `name` when present — the registry shrinks by one and no longer
/// answers for that name — keeps every other name untouched, and leaves
/// an absent name's registry exactly as it was.
pub proof fn lemma_remove_get(s: Seq<MappingV>, name: Seq<char>)
    requires
        names_unique(s),
    ensures
        names_unique(spec_remove(s, name)),
        spec_get(spec_remove(s, name), name) is None,
        forall|n: Seq<char>| n != name ==> #[trigger] spec_get(spec_remove(s, name), n) == spec_get(
            s,
            n,
        ),
        spec_get(s, name) is Some ==> spec_remove(s, name).len() == s.len() - 1,
        spec_get(s, name) is None ==> spec_remove(s, name) == s,
{
    let t = spec_remove(s, name);
    lemma_index_of_name(s, name);
    let idx = index_of_name(s, name);
    if idx >= 0 {
        assert(forall|i: int| 0 <= i < idx ==> t[i] == s[i]);
        assert(forall|i: int| idx <= i < t.len() ==> t[i] == s[i + 1]);
        assert forall|i: int, j: int| 0 <= i < j < t.len() implies t[i].subdir != t[j].subdir by {}
        lemma_index_of_name(t, name);
        if index_of_name(t, name) >= 0 {
            let k = index_of_name(t, name);
            if k < idx {
                assert(s[k].subdir == name);
                assert(false);
            } else {
                assert(s[k + 1].subdir == name);
                assert(false);
            }
        }
        assert forall|n: Seq<char>| n != name implies #[trigger] spec_get(t, n) == spec_get(s, n) by {
            lemma_index_of_name(s, n);
            lemma_index_of_name(t, n);
            let ks = index_of_name(s, n);
            let kt = index_of_name(t, n);
            if ks >= 0 {
                assert(ks != idx);
                let expect = if ks < idx {
                    ks
                } else {
                    ks - 1
                };
                assert(t[expect].subdir == n);
                assert(kt >= 0);
                if kt != expect {
                    let back = if kt < idx {
                        kt
                    } else {
                        kt + 1
                    };
                    assert(s[back].subdir == n);
                    assert(back != ks);
                    assert(false);
                }
                assert(t[kt] == s[ks]);
            } else {
                if kt >= 0 {
                    let back = if kt < idx {
                        kt
                    } else {
                        kt + 1
                    };
                    assert(s[back].subdir == n);
                    assert(false);
                }
            }
        }
    }
}

/// The in-memory registry: the full set of mappings of one repository,
/// loaded once per invocation and written back as a whole on mutation.
#[derive(Debug)]
pub struct Config {
    pub mappings: Vec<Mapping>,
}

impl View for Config {
    type V = Seq<MappingV>;

    open spec fn view(&self) -> Seq<MappingV> {
        self.mappings.deep_view()
    }
}

impl Config {
    /// The registry invariant: mapping names are unique.
    pub open spec fn wf(&self) -> bool {
        names_unique(self@)
    }

    /// The empty registry.
    pub fn new() -> (c: Config)
        ensures
            c@ =~= Seq::<MappingV>::empty(),
            c.wf(),
    {
        Config { mappings: Vec::new() }
    }

    /// Number of mappings.
    pub fn len(&self) -> (n: usize)
        ensures
            n == self@.len(),
    {
        self.mappings.len()
    }

    /// Whether the registry holds no mapping at all; an empty registry is
    /// reported explicitly rather than as empty output.
    pub fn is_empty(&self) -> (r: bool)
        ensures
            r == (self@.len() == 0),
    {
        self.mappings.len() == 0
    }

    /// Position of the mapping named `name`.
    fn position_of(&self, name: &str) -> (r: Option<usize>)
        ensures
            match r {
                Some(i) => i < self.mappings@.len() && index_of_name(self@, name@) == i as int
                    && self@[i as int].subdir == name@,
                None => index_of_name(self@, name@) == -1,
            },
    {
        proof {
            lemma_index_of_name(self@, name@);
        }
        let n = self.mappings.len();
        let mut i: usize = 0;
        while i < n
            invariant
                n == self@.len(),
                0 <= i <= n,
                forall|j: int| 0 <= j < i ==> self@[j].subdir != name@,
                index_of_name(self@, name@) >= 0 ==> index_of_name(self@, name@) < n
                    && self@[index_of_name(self@, name@)].subdir == name@,
                index_of_name(self@, name@) == -1 <==> forall|j: int|
                    0 <= j < n ==> self@[j].subdir != name@,
                forall|j: int| 0 <= j < index_of_name(self@, name@) ==> self@[j].subdir != name@,
            decreases n - i,
        {
            if str_eq(self.mappings[i].subdir.as_str(), name) {
                proof {
                    assert(self@[i as int] == self.mappings@[i as int]@);
                    assert(self@[i as int].subdir == name@);
                    let idx = index_of_name(self@, name@);
                    assert(idx != -1);
                    if idx < i {
                        assert(self@[idx].subdir != name@);
                        assert(false);
                    }
                    if idx > i {
                        assert(self@[i as int].subdir != name@);
                        assert(false);
                    }
                }
                return Some(i);
            }
            i += 1;
        }
        None
    }

    /// Lookup; absence is not an error at this layer.
    pub fn get(&self, name: &str) -> (r: Option<&Mapping>)
        ensures
            match r {
                Some(m) => spec_get(self@, name@) == Some(m@),
                None => spec_get(self@, name@) is None,
            },
    {
        match self.position_of(name) {
            Some(i) => Some(&self.mappings[i]),
            None => None,
        }
    }

    /// Inserts `m`, or fully replaces the mapping already bearing its
    /// name.
    pub fn upsert(&mut self, m: Mapping)
        requires
            old(self).wf(),
        ensures
            final(self).wf(),
            final(self)@ == spec_upsert(old(self)@, m@),
            spec_get(final(self)@, m@.subdir) == Some(m@),
            forall|n: Seq<char>| n != m@.subdir ==> #[trigger] spec_get(final(self)@, n)
                == spec_get(old(self)@, n),
    {
        proof {
            lemma_upsert_get(self@, m@);
        }
        match self.position_of(m.subdir.as_str()) {
            Some(i) => {
                self.mappings[i] = m;
                proof {
                    assert(self@ =~= spec_upsert(old(self)@, m@));
                }
            },
            None => {
                self.mappings.push(m);
                proof {
                    assert(self@ =~= spec_upsert(old(self)@, m@));
                }
            },
        }
    }

    /// Runtime check of the registry invariant, for callers outside the
    /// verified world that must not hand a malformed registry to the
    /// mutating operations.
    pub fn is_wf(&self) -> (r: bool)
        ensures
            r == self.wf(),
    {
        let n = self.mappings.len();
        let mut i: usize = 0;
        while i < n
            invariant
                n == self@.len(),
                0 <= i <= n,
                forall|p: int, q: int| 0 <= p < q < n && p < i ==> self@[p].subdir != self@[q].subdir,
            decreases n - i,
        {
            let mut j: usize = i + 1;
            while j < n
                invariant
                    n == self@.len(),
                    0 <= i < j <= n,
                    forall|p: int, q: int|
                        0 <= p < q < n && p < i ==> self@[p].subdir != self@[q].subdir,
                    forall|q: int| i < q < j ==> self@[i as int].subdir != self@[q].subdir,
                decreases n - j,
            {
                if str_eq(self.mappings[i].subdir.as_str(), self.mappings[j].subdir.as_str()) {
                    proof {
                        assert(self@[i as int].subdir == self@[j as int].subdir);
                    }
                    return false;
                }
                j += 1;
            }
            i += 1;
        }
        true
    }

    /// Deletes the mapping named `name` if present; reports whether it
    /// existed.
    pub fn remove(&mut self, name: &str) -> (removed: bool)
        requires
            old(self).wf(),
        ensures
            final(self).wf(),
            final(self)@ == spec_remove(old(self)@, name@),
            removed == (spec_get(old(self)@, name@) is Some),
            spec_get(final(self)@, name@) is None,
            forall|n: Seq<char>| n != name@ ==> #[trigger] spec_get(final(self)@, n) == spec_get(
                old(self)@,
                n,
            ),
    {
        proof {
            lemma_remove_get(self@, name@);
            lemma_index_of_name(self@, name@);
        }
        match self.position_of(name) {
            Some(i) => {
                self.mappings.remove(i);
                proof {
                    assert(self@ =~= spec_remove(old(self)@, name@));
                }
                true
            },
            None => {
                false
            },
        }
    }
}

// ---------------------------------------------------------------------------
// The persisted form.  The registry is stored in the engine's local
// key/value configuration as one triplet of keys per mapping:
// `gh-sync.<name>.remote`, `.url` and `.branch`.  Saving issues one
// `config --replace-all` command per field; loading parses the text that
// `config --get-regexp ^gh-sync\.` prints, one `<key> <value>` line per
// stored field.
// ---------------------------------------------------------------------------
/// The key under which `field` of the mapping named `name` is stored.
pub open spec fn config_key(name: Seq<char>, field: Seq<char>) -> Seq<char> {
    "gh-sync."@ + name + "."@ + field
}

/// One `<key> <value>` line of the engine's key listing.
pub open spec fn config_line(name: Seq<char>, field: Seq<char>, value: Seq<char>) -> Seq<char> {
    config_key(name, field) + " "@ + value + "\n"@
}

/// The three lines that persist one mapping, in the order they are
/// written: remote, url, branch.
pub open spec fn mapping_text(m: MappingV) -> Seq<char> {
    config_line(m.subdir, "remote"@, m.remote) + config_line(m.subdir, "url"@, m.url)
        + config_line(m.subdir, "branch"@, m.branch)
}

/// The full key listing of a registry.
pub open spec fn config_text(s: Seq<MappingV>) -> Seq<char>
    decreases s.len(),
{
    if s.len() == 0 {
        Seq::<char>::empty()
    } else {
        mapping_text(s[0]) + config_text(s.drop_first())
    }
}

/// Arguments of `config --local --replace-all <key> <value>`.
pub open spec fn replace_args(key: Seq<char>, value: Seq<char>) -> Seq<Seq<char>> {
    seq!["config"@, "--local"@, "--replace-all"@, key, value]
}

/// The command sequence that persists a registry: three `replace-all`
/// commands per mapping, in registry order.  Each field is written
/// independently and best-effort; the backend gives no cross-field
/// atomicity.  A removed mapping's keys are cleared separately by
/// `remove_cmds`, at the moment of removal.
pub open spec fn save_cmds(s: Seq<MappingV>) -> Seq<Seq<Seq<char>>>
    decreases s.len(),
{
    if s.len() == 0 {
        Seq::<Seq<Seq<char>>>::empty()
    } else {
        seq![
            replace_args(config_key(s[0].subdir, "remote"@), s[0].remote),
            replace_args(config_key(s[0].subdir, "url"@), s[0].url),
            replace_args(config_key(s[0].subdir, "branch"@), s[0].branch),
        ] + save_cmds(s.drop_first())
    }
}

/// Arguments of `config --local --unset-all <key>`.
pub open spec fn unset_args(key: Seq<char>) -> Seq<Seq<char>> {
    seq!["config"@, "--local"@, "--unset-all"@, key]
}

/// The command sequence that persists a removal: one `unset-all` per
/// stored field of the removed name, clearing its keys from the
/// namespace so that the next load cannot resurrect the mapping.
pub open spec fn remove_cmds(name: Seq<char>) -> Seq<Seq<Seq<char>>> {
    seq![
        unset_args(config_key(name, "remote"@)),
        unset_args(config_key(name, "url"@)),
        unset_args(config_key(name, "branch"@)),
    ]
}

/// A line with its one trailing carriage return removed, as the standard
/// line splitting does before a line feed.
pub open spec fn strip_cr(l: Seq<char>) -> Seq<char> {
    if l.len() > 0 && l.last() == '\r' {
        l.drop_last()
    } else {
        l
    }
}

/// The lines of `t`: split at each line feed, dropping a carriage return
/// that precedes one; a final line without a terminator still counts.
pub open spec fn split_lines(t: Seq<char>) -> Seq<Seq<char>>
    decreases t.len(),
{
    if t.len() == 0 {
        Seq::<Seq<char>>::empty()
    } else {
        let i = index_of(t, '\n');
        if 0 <= i < t.len() {
            seq![strip_cr(t.take(i))] + split_lines(t.skip(i + 1))
        } else {
            seq![t]
        }
    }
}

/// `e` with one named field replaced; an unrecognised field name changes
/// nothing.
pub open spec fn field_update(e: MappingV, field: Seq<char>, value: Seq<char>) -> MappingV {
    if field == "remote"@ {
        MappingV { remote: value, ..e }
    } else if field == "url"@ {
        MappingV { url: value, ..e }
    } else if field == "branch"@ {
        MappingV { branch: value, ..e }
    } else {
        e
    }
}

/// Record `field = value` for the mapping named `name`, creating the
/// mapping (with the name as its subdirectory and empty fields) on first
/// sight of the name.
pub open spec fn apply_field(
    acc: Seq<MappingV>,
    name: Seq<char>,
    field: Seq<char>,
    value: Seq<char>,
) -> Seq<MappingV> {
    let idx = index_of_name(acc, name);
    if idx >= 0 {
        acc.update(idx, field_update(acc[idx], field, value))
    } else {
        acc.push(
            field_update(
                MappingV {
                    subdir: name,
                    remote: Seq::<char>::empty(),
                    url: Seq::<char>::empty(),
                    branch: Seq::<char>::empty(),
                },
                field,
                value,
            ),
        )
    }
}

/// Parse one `<key> <value>` line into the accumulated registry.  A line
/// without a separating space, a key outside the `gh-sync` namespace, or
/// a key without a field segment is ignored.
pub open spec fn parse_line(acc: Seq<MappingV>, line: Seq<char>) -> Seq<MappingV> {
    let sp = index_of(line, ' ');
    if sp < 0 {
        acc
    } else {
        let key = line.take(sp);
        let value = line.skip(sp + 1);
        let d1 = index_of(key, '.');
        if d1 < 0 {
            acc
        } else {
            let first = key.take(d1);
            if first != "gh-sync"@ {
                acc
            } else {
                let rest1 = key.skip(d1 + 1);
                let d2 = index_of(rest1, '.');
                if d2 < 0 {
                    acc
                } else {
                    let name = rest1.take(d2);
                    let rest2 = rest1.skip(d2 + 1);
                    let d3 = index_of(rest2, '.');
                    let field = if d3 < 0 {
                        rest2
                    } else {
                        rest2.take(d3)
                    };
                    apply_field(acc, name, field, value)
                }
            }
        }
    }
}

/// Left fold of `parse_line` over a line listing.
pub open spec fn parse_lines(acc: Seq<MappingV>, lines: Seq<Seq<char>>) -> Seq<MappingV>
    decreases lines.len(),
{
    if lines.len() == 0 {
        acc
    } else {
        parse_lines(parse_line(acc, lines[0]), lines.drop_first())
    }
}

/// The registry encoded by a key listing.
pub open spec fn parse_config(t: Seq<char>) -> Seq<MappingV> {
    parse_lines(Seq::<MappingV>::empty(), split_lines(t))
}

/// `parse_line` never breaks name uniqueness: it only replaces a field of
/// an existing mapping or appends one under a fresh name.
pub proof fn lemma_parse_line_wf(acc: Seq<MappingV>, line: Seq<char>)
    requires
        names_unique(acc),
    ensures
        names_unique(parse_line(acc, line)),
{
    let t = parse_line(acc, line);
    let sp = index_of(line, ' ');
    if sp >= 0 {
        let key = line.take(sp);
        let d1 = index_of(key, '.');
        if d1 >= 0 && key.take(d1) == "gh-sync"@ {
            let rest1 = key.skip(d1 + 1);
            let d2 = index_of(rest1, '.');
            if d2 >= 0 {
                let name = rest1.take(d2);
                lemma_index_of_name(acc, name);
                let idx = index_of_name(acc, name);
                if idx >= 0 {
                    assert forall|i: int, j: int| 0 <= i < j < t.len() implies t[i].subdir
                        != t[j].subdir by {
                        assert(t[i].subdir == acc[i].subdir);
                        assert(t[j].subdir == acc[j].subdir);
                    }
                } else {
                    assert forall|i: int, j: int| 0 <= i < j < t.len() implies t[i].subdir
                        != t[j].subdir by {
                        assert(t[i] == acc[i]);
                        if j < acc.len() {
                            assert(t[j] == acc[j]);
                        } else {
                            assert(t[j].subdir == name);
                            assert(acc[i].subdir != name);
                        }
                    }
                }
            }
        }
    }
}

/// Writes one named field of a mapping; any other field name is ignored,
/// as the decoder ignores unknown keys.
fn set_field(e: &mut Mapping, field: &str, value: &str)
    ensures
        final(e)@ == field_update(old(e)@, field@, value@),
{
    if str_eq(field, "remote") {
        e.remote = String::from_str(value);
    } else if str_eq(field, "url") {
        e.url = String::from_str(value);
    } else if str_eq(field, "branch") {
        e.branch = String::from_str(value);
    }
}

impl Config {
    /// Folds one line of the key listing into the registry.
    fn parse_line_into(&mut self, line: &str)
        requires
            old(self).wf(),
        ensures
            final(self).wf(),
            final(self)@ == parse_line(old(self)@, line@),
    {
        proof {
            lemma_parse_line_wf(self@, line@);
            lemma_index_of(line@, ' ');
        }
        let n = line.unicode_len();
        let sp = match find_char(line, ' ') {
            Some(sp) => sp,
            None => {
                return ;
            },
        };
        let key = line.substring_char(0, sp);
        let value = line.substring_char(sp + 1, n);
        proof {
            assert(key@ =~= line@.take(sp as int));
            assert(value@ =~= line@.skip(sp + 1));
            lemma_index_of(key@, '.');
        }
        let nk = key.unicode_len();
        let d1 = match find_char(key, '.') {
            Some(d1) => d1,
            None => {
                return ;
            },
        };
        let first = key.substring_char(0, d1);
        proof {
            assert(first@ =~= key@.take(d1 as int));
        }
        if !str_eq(first, "gh-sync") {
            return ;
        }
        let rest1 = key.substring_char(d1 + 1, nk);
        proof {
            assert(rest1@ =~= key@.skip(d1 + 1));
            lemma_index_of(rest1@, '.');
        }
        let n1 = rest1.unicode_len();
        let d2 = match find_char(rest1, '.') {
            Some(d2) => d2,
            None => {
                return ;
            },
        };
        let name = rest1.substring_char(0, d2);
        let rest2 = rest1.substring_char(d2 + 1, n1);
        proof {
            assert(name@ =~= rest1@.take(d2 as int));
            assert(rest2@ =~= rest1@.skip(d2 + 1));
            lemma_index_of(rest2@, '.');
        }
        let field = match find_char(rest2, '.') {
            Some(d3) => rest2.substring_char(0, d3),
            None => rest2,
        };
        proof {
            let d3 = index_of(rest2@, '.');
            if d3 >= 0 {
                assert(field@ =~= rest2@.take(d3));
            }
        }
        match self.position_of(name) {
            Some(i) => {
                set_field(&mut self.mappings[i], field, value);
                proof {
                    assert(self@ =~= parse_line(old(self)@, line@));
                }
            },
            None => {
                let mut e = Mapping {
                    subdir: String::from_str(name),
                    remote: String::new(),
                    url: String::new(),
                    branch: String::new(),
                };
                set_field(&mut e, field, value);
                self.mappings.push(e);
                proof {
                    assert(self@ =~= parse_line(old(self)@, line@));
                }
            },
        }
    }

    /// Decodes the registry from the engine's key listing.  `found` is
    /// whether the listing query succeeded at all: the engine reports
    /// failure when no key of the namespace exists yet, and an absent
    /// registry is simply empty — never an error.  Unknown keys and
    /// malformed lines are ignored, as the engine owns the file and may
    /// hold unrelated entries.
    pub fn load(found: bool, text: &str) -> (c: Config)
        ensures
            c.wf(),
            found ==> c@ == parse_config(text@),
            !found ==> c@ =~= Seq::<MappingV>::empty(),
    {
        let mut c = Config::new();
        if !found {
            return c;
        }
        let n = text.unicode_len();
        let mut pos: usize = 0;
        proof {
            assert(text@.skip(0) =~= text@);
        }
        while pos < n
            invariant
                n == text@.len(),
                0 <= pos <= n,
                c.wf(),
                parse_lines(c@, split_lines(text@.skip(pos as int))) == parse_config(text@),
            decreases n - pos,
        {
            let rem = text.substring_char(pos, n);
            proof {
                assert(rem@ =~= text@.skip(pos as int));
                lemma_index_of(rem@, '\n');
            }
            match find_char(rem, '\n') {
                Some(i) => {
                    let line = if i > 0 && rem.get_char(i - 1) == '\r' {
                        rem.substring_char(0, i - 1)
                    } else {
                        rem.substring_char(0, i)
                    };
                    proof {
                        assert(line@ =~= strip_cr(rem@.take(i as int)));
                        assert(split_lines(rem@) == seq![strip_cr(rem@.take(i as int))]
                            + split_lines(rem@.skip(i + 1)));
                    }
                    let ghost pre = c@;
                    c.parse_line_into(line);
                    proof {
                        let lines = split_lines(rem@);
                        assert(lines[0] == line@);
                        assert(lines.drop_first() =~= split_lines(rem@.skip(i + 1)));
                        assert(parse_lines(pre, lines) == parse_lines(c@, lines.drop_first()));
                        assert(text@.skip(pos + i + 1) =~= rem@.skip(i + 1));
                    }
                    pos = pos + i + 1;
                },
                None => {
                    let ghost pre = c@;
                    proof {
                        assert(split_lines(rem@) =~= seq![rem@]);
                    }
                    c.parse_line_into(rem);
                    proof {
                        let lines = split_lines(rem@);
                        assert(lines[0] == rem@);
                        assert(lines.drop_first() =~= Seq::<Seq<char>>::empty());
                        assert(parse_lines(pre, lines) == parse_lines(c@, lines.drop_first()));
                        assert(text@.skip(n as int) =~= Seq::<char>::empty());
                    }
                    pos = n;
                },
            }
        }
        proof {
            assert(text@.skip(n as int) =~= Seq::<char>::empty());
        }
        c
    }

    /// Encodes the registry as the command sequence that persists it:
    /// `config --local --replace-all <key> <value>`, three commands per
    /// mapping.
    pub fn save(&self) -> (cmds: Vec<Vec<String>>)
        ensures
            cmds.deep_view() == save_cmds(self@),
    {
        let mut cmds: Vec<Vec<String>> = Vec::new();
        let n = self.mappings.len();
        let mut i: usize = 0;
        proof {
            assert(self@.skip(0) =~= self@);
            assert(cmds.deep_view() =~~= Seq::<Seq<Seq<char>>>::empty());
            assert(cmds.deep_view() + save_cmds(self@) =~~= save_cmds(self@));
        }
        while i < n
            invariant
                n == self@.len(),
                0 <= i <= n,
                cmds.deep_view() + save_cmds(self@.skip(i as int)) == save_cmds(self@),
            decreases n - i,
        {
            let m = &self.mappings[i];
            let ghost pre = cmds.deep_view();
            cmds.push(replace_command("remote", m.subdir.as_str(), m.remote.as_str()));
            cmds.push(replace_command("url", m.subdir.as_str(), m.url.as_str()));
            cmds.push(replace_command("branch", m.subdir.as_str(), m.branch.as_str()));
            proof {
                let rest = self@.skip(i as int);
                assert(rest[0] == self@[i as int]);
                assert(rest.drop_first() =~= self@.skip(i + 1));
                assert(save_cmds(rest) == seq![
                    replace_args(config_key(m@.subdir, "remote"@), m@.remote),
                    replace_args(config_key(m@.subdir, "url"@), m@.url),
                    replace_args(config_key(m@.subdir, "branch"@), m@.branch),
                ] + save_cmds(self@.skip(i + 1)));
                assert(cmds.deep_view() =~~= pre + seq![
                    replace_args(config_key(m@.subdir, "remote"@), m@.remote),
                    replace_args(config_key(m@.subdir, "url"@), m@.url),
                    replace_args(config_key(m@.subdir, "branch"@), m@.branch),
                ]);
                assert(cmds.deep_view() + save_cmds(self@.skip(i + 1)) =~~= pre + save_cmds(
                    self@.skip(i as int),
                ));
            }
            i += 1;
        }
        proof {
            assert(self@.skip(n as int) =~= Seq::<MappingV>::empty());
            assert(cmds.deep_view() =~~= save_cmds(self@));
        }
        cmds
    }

    /// The key listing that the engine prints back once exactly the
    /// commands of `save` have run against an otherwise empty namespace:
    /// one `<key> <value>` line per stored field, in the order written.
    pub fn render_config_text(&self) -> (t: String)
        ensures
            t@ == config_text(self@),
    {
        let mut t = String::new();
        let n = self.mappings.len();
        let mut i: usize = 0;
        proof {
            assert(self@.skip(0) =~= self@);
            assert(t@ + config_text(self@) =~= config_text(self@));
        }
        while i < n
            invariant
                n == self@.len(),
                0 <= i <= n,
                t@ + config_text(self@.skip(i as int)) == config_text(self@),
            decreases n - i,
        {
            let m = &self.mappings[i];
            let ghost pre = t@;
            append_line(&mut t, "remote", m.subdir.as_str(), m.remote.as_str());
            append_line(&mut t, "url", m.subdir.as_str(), m.url.as_str());
            append_line(&mut t, "branch", m.subdir.as_str(), m.branch.as_str());
            proof {
                let rest = self@.skip(i as int);
                assert(rest[0] == self@[i as int]);
                assert(rest.drop_first() =~= self@.skip(i + 1));
                assert(config_text(rest) == mapping_text(self@[i as int]) + config_text(
                    self@.skip(i + 1),
                ));
                assert(t@ =~= pre + mapping_text(self@[i as int]));
                assert(t@ + config_text(self@.skip(i + 1)) =~= pre + config_text(rest));
            }
            i += 1;
        }
        proof {
            assert(self@.skip(n as int) =~= Seq::<MappingV>::empty());
            assert(t@ =~= config_text(self@));
        }
        t
    }
}

/// One persisting command: `config --local --replace-all <key> <value>`.
fn replace_command(field: &str, name: &str, value: &str) -> (cmd: Vec<String>)
    ensures
        cmd.deep_view() == replace_args(config_key(name@, field@), value@),
{
    let mut key = String::from_str("gh-sync.");
    key.append(name);
    key.append(".");
    key.append(field);
    proof {
        assert(key@ =~= config_key(name@, field@));
    }
    let mut cmd: Vec<String> = Vec::new();
    cmd.push(String::from_str("config"));
    cmd.push(String::from_str("--local"));
    cmd.push(String::from_str("--replace-all"));
    cmd.push(key);
    cmd.push(String::from_str(value));
    proof {
        assert(cmd.deep_view() =~~= replace_args(config_key(name@, field@), value@));
    }
    cmd
}

/// One removal command: `config --local --unset-all <key>`.
fn unset_command(field: &str, name: &str) -> (cmd: Vec<String>)
    ensures
        cmd.deep_view() == unset_args(config_key(name@, field@)),
{
    let mut key = String::from_str("gh-sync.");
    key.append(name);
    key.append(".");
    key.append(field);
    proof {
        assert(key@ =~= config_key(name@, field@));
    }
    let mut cmd: Vec<String> = Vec::new();
    cmd.push(String::from_str("config"));
    cmd.push(String::from_str("--local"));
    cmd.push(String::from_str("--unset-all"));
    cmd.push(key);
    proof {
        assert(cmd.deep_view() =~~= unset_args(config_key(name@, field@)));
    }
    cmd
}

/// The commands that persist the removal of the mapping named `name`:
/// they unset its three keys, so a subsequent load no longer sees it.
pub fn removal_commands(name: &str) -> (cmds: Vec<Vec<String>>)
    ensures
        cmds.deep_view() == remove_cmds(name@),
{
    let mut cmds: Vec<Vec<String>> = Vec::new();
    cmds.push(unset_command("remote", name));
    cmds.push(unset_command("url", name));
    cmds.push(unset_command("branch", name));
    proof {
        assert(cmds.deep_view() =~~= remove_cmds(name@));
    }
    cmds
}

/// Appends one `<key> <value>` line to a key listing being rendered.
fn append_line(t: &mut String, field: &str, name: &str, value: &str)
    ensures
        final(t)@ == old(t)@ + config_line(name@, field@, value@),
{
    t.append("gh-sync.");
    t.append(name);
    t.append(".");
    t.append(field);
    t.append(" ");
    t.append(value);
    t.append("\n");
    proof {
        assert(t@ =~= old(t)@ + config_line(name@, field@, value@));
    }
}

// ---------------------------------------------------------------------------
// Round-trip law: what `save` writes, `load` reads back unchanged.
// ---------------------------------------------------------------------------
/// `c` occurs somewhere in `s`.
pub open spec fn has_char(s: Seq<char>, c: char) -> bool {
    exists|i: int| 0 <= i < s.len() && #[trigger] s[i] == c
}

/// A name the key/value backend can carry faithfully: the name is spliced
/// into the key, so it must not contain the key separator, the
/// key/value separator, or a line break.
pub open spec fn storable_name(n: Seq<char>) -> bool {
    !has_char(n, '.') && !has_char(n, ' ') && !has_char(n, '\n') && !has_char(n, '\r')
}

/// A value the line-oriented listing can carry faithfully: anything
/// without a line break.
pub open spec fn storable_value(v: Seq<char>) -> bool {
    !has_char(v, '\n') && !has_char(v, '\r')
}

/// A mapping the backend can persist losslessly.
pub open spec fn storable_mapping(m: MappingV) -> bool {
    storable_name(m.subdir) && storable_value(m.remote) && storable_value(m.url) && storable_value(
        m.branch,
    )
}

/// A registry the backend can persist losslessly: well formed, every
/// mapping storable.
pub open spec fn storable_registry(s: Seq<MappingV>) -> bool {
    names_unique(s) && forall|i: int| 0 <= i < s.len() ==> storable_mapping(#[trigger] s[i])
}

/// An index of a mapping bearing `name` with none before it is the one
/// `index_of_name` returns.
proof fn lemma_index_of_name_exact(s: Seq<MappingV>, name: Seq<char>, k: int)
    requires
        0 <= k < s.len(),
        s[k].subdir == name,
        forall|i: int| 0 <= i < k ==> s[i].subdir != name,
    ensures
        index_of_name(s, name) == k,
{
    lemma_index_of_name(s, name);
    let idx = index_of_name(s, name);
    if idx == -1 {
        assert(s[k].subdir != name);
        assert(false);
    } else if idx < k {
        assert(s[idx].subdir != name);
        assert(false);
    } else if idx > k {
        assert(s[k].subdir != name);
        assert(false);
    }
}

/// Splitting a listing that starts with one clean line yields that line
/// and then the split of the rest.
proof fn lemma_split_line_prefix(l: Seq<char>, t: Seq<char>)
    requires
        forall|i: int| 0 <= i < l.len() ==> l[i] != '\n',
        l.len() == 0 || l[l.len() - 1] != '\r',
    ensures
        split_lines(l + "\n"@ + t) == seq![l] + split_lines(t),
{
    reveal_strlit("\n");
    let s = l + "\n"@ + t;
    assert(s.len() == l.len() + 1 + t.len());
    assert(s[l.len() as int] == '\n');
    assert forall|i: int| 0 <= i < l.len() implies s[i] != '\n' by {
        assert(s[i] == l[i]);
    }
    crate::strutil::lemma_index_of_exact(s, '\n', l.len() as int);
    assert(s.take(l.len() as int) =~= l);
    assert(strip_cr(l) == l);
    assert(s.skip(l.len() as int + 1) =~= t);
}

/// Folding a concatenation of line listings is folding one then the
/// other.
proof fn lemma_parse_lines_append(acc: Seq<MappingV>, a: Seq<Seq<char>>, b: Seq<Seq<char>>)
    ensures
        parse_lines(acc, a + b) == parse_lines(parse_lines(acc, a), b),
    decreases a.len(),
{
    if a.len() == 0 {
        assert(a + b =~= b);
    } else {
        assert((a + b)[0] == a[0]);
        assert((a + b).drop_first() =~= a.drop_first() + b);
        lemma_parse_lines_append(parse_line(acc, a[0]), a.drop_first(), b);
    }
}

/// Parsing one stored line records exactly the field it carries.
proof fn lemma_parse_config_line(
    acc: Seq<MappingV>,
    name: Seq<char>,
    field: Seq<char>,
    value: Seq<char>,
)
    requires
        !has_char(name, '.'),
        !has_char(name, ' '),
        !has_char(field, '.'),
        !has_char(field, ' '),
    ensures
        parse_line(acc, config_key(name, field) + " "@ + value) == apply_field(
            acc,
            name,
            field,
            value,
        ),
{
    reveal_strlit("gh-sync.");
    reveal_strlit("gh-sync");
    reveal_strlit(".");
    reveal_strlit(" ");
    let key = config_key(name, field);
    let line = key + " "@ + value;
    assert(key.len() == 8 + name.len() + 1 + field.len());
    assert(line.len() == key.len() + 1 + value.len());
    // The first space separates key and value.
    assert(line[key.len() as int] == ' ');
    assert forall|i: int| 0 <= i < key.len() implies line[i] != ' ' by {
        assert(line[i] == key[i]);
        if i < 8 {
            assert(key[i] == "gh-sync."@[i]);
        } else if i < 8 + name.len() {
            assert(key[i] == name[i - 8]);
        } else if i == 8 + name.len() {
            assert(key[i] == "."@[0]);
        } else {
            assert(key[i] == field[i - (8 + name.len() + 1)]);
        }
    }
    crate::strutil::lemma_index_of_exact(line, ' ', key.len() as int);
    assert(line.take(key.len() as int) =~= key);
    assert(line.skip(key.len() as int + 1) =~= value);
    // The first dot ends the namespace prefix.
    assert(key[7] == "gh-sync."@[7]);
    assert(key[7] == '.');
    assert forall|i: int| 0 <= i < 7 implies key[i] != '.' by {
        assert(key[i] == "gh-sync."@[i]);
    }
    crate::strutil::lemma_index_of_exact(key, '.', 7);
    assert(key.take(7) =~= "gh-sync"@);
    let rest1 = key.skip(8);
    assert(rest1 =~= name + "."@ + field);
    // The next dot ends the name.
    assert(rest1[name.len() as int] == '.');
    assert forall|i: int| 0 <= i < name.len() implies rest1[i] != '.' by {
        assert(rest1[i] == name[i]);
    }
    crate::strutil::lemma_index_of_exact(rest1, '.', name.len() as int);
    assert(rest1.take(name.len() as int) =~= name);
    let rest2 = rest1.skip(name.len() as int + 1);
    assert(rest2 =~= field);
    // The field carries no further dot.
    lemma_index_of(rest2, '.');
    assert forall|i: int| 0 <= i < rest2.len() implies rest2[i] != '.' by {
        assert(rest2[i] == field[i]);
    }
    assert(index_of(rest2, '.') == -1);
}

/// Parsing the three stored lines of a fresh mapping appends exactly
/// that mapping.
proof fn lemma_parse_mapping(acc: Seq<MappingV>, m: MappingV)
    requires
        storable_mapping(m),
        index_of_name(acc, m.subdir) == -1,
    ensures
        parse_lines(
            acc,
            seq![
                config_key(m.subdir, "remote"@) + " "@ + m.remote,
                config_key(m.subdir, "url"@) + " "@ + m.url,
                config_key(m.subdir, "branch"@) + " "@ + m.branch,
            ],
        ) == acc.push(m),
{
    reveal_strlit("remote");
    reveal_strlit("url");
    reveal_strlit("branch");
    assert("remote"@.len() == 6 && "url"@.len() == 3 && "branch"@.len() == 6);
    assert(forall|i: int| 0 <= i < 6 ==> "remote"@[i] != '.' && "remote"@[i] != ' ');
    assert(forall|i: int| 0 <= i < 3 ==> "url"@[i] != '.' && "url"@[i] != ' ');
    assert(forall|i: int| 0 <= i < 6 ==> "branch"@[i] != '.' && "branch"@[i] != ' ');
    assert("url"@ != "remote"@);
    assert("branch"@[0] != "remote"@[0]);
    assert("branch"@ != "remote"@ && "branch"@ != "url"@);
    let lines = seq![
        config_key(m.subdir, "remote"@) + " "@ + m.remote,
        config_key(m.subdir, "url"@) + " "@ + m.url,
        config_key(m.subdir, "branch"@) + " "@ + m.branch,
    ];
    lemma_index_of_name(acc, m.subdir);
    // Line one creates the mapping with its remote set.
    lemma_parse_config_line(acc, m.subdir, "remote"@, m.remote);
    let e1 = MappingV {
        subdir: m.subdir,
        remote: m.remote,
        url: Seq::<char>::empty(),
        branch: Seq::<char>::empty(),
    };
    let acc1 = parse_line(acc, lines[0]);
    assert(acc1 =~= acc.push(e1));
    // Line two fills in the url.
    lemma_parse_config_line(acc1, m.subdir, "url"@, m.url);
    assert(forall|i: int| 0 <= i < acc.len() ==> acc1[i] == acc[i]);
    lemma_index_of_name_exact(acc1, m.subdir, acc.len() as int);
    let e2 = MappingV { url: m.url, ..e1 };
    let acc2 = parse_line(acc1, lines[1]);
    assert(acc2 =~= acc.push(e2));
    // Line three fills in the branch.
    lemma_parse_config_line(acc2, m.subdir, "branch"@, m.branch);
    assert(forall|i: int| 0 <= i < acc.len() ==> acc2[i] == acc[i]);
    lemma_index_of_name_exact(acc2, m.subdir, acc.len() as int);
    let e3 = MappingV { branch: m.branch, ..e2 };
    let acc3 = parse_line(acc2, lines[2]);
    assert(acc3 =~= acc.push(e3));
    assert(e3 =~= m);
    let l1 = lines.drop_first();
    let l2 = l1.drop_first();
    let l3 = l2.drop_first();
    assert(l1[0] == lines[1]);
    assert(l2[0] == lines[2]);
    assert(l3.len() == 0);
    assert(parse_lines(acc, lines) == parse_lines(acc1, l1));
    assert(parse_lines(acc1, l1) == parse_lines(acc2, l2));
    assert(parse_lines(acc2, l2) == parse_lines(acc3, l3));
    assert(parse_lines(acc3, l3) == acc3);
    assert(acc3 == acc.push(m));
}

/// A stored line of a storable mapping contains no line break and does
/// not end in a carriage return.
proof fn lemma_line_clean(name: Seq<char>, field: Seq<char>, value: Seq<char>)
    requires
        storable_name(name),
        !has_char(field, '\n'),
        !has_char(field, '\r'),
        storable_value(value),
    ensures
        forall|i: int|
            0 <= i < (config_key(name, field) + " "@ + value).len() ==> (config_key(name, field)
                + " "@ + value)[i] != '\n',
        (config_key(name, field) + " "@ + value)[(config_key(name, field) + " "@
            + value).len() - 1] != '\r',
{
    reveal_strlit("gh-sync.");
    reveal_strlit(".");
    reveal_strlit(" ");
    let key = config_key(name, field);
    let line = key + " "@ + value;
    assert(key.len() == 8 + name.len() + 1 + field.len());
    assert(line.len() == key.len() + 1 + value.len());
    assert forall|i: int| 0 <= i < line.len() implies line[i] != '\n' && (i == line.len() - 1
        ==> line[i] != '\r') by {
        if i < 8 {
            assert(line[i] == "gh-sync."@[i]);
        } else if i < 8 + name.len() {
            assert(line[i] == name[i - 8]);
        } else if i == 8 + name.len() {
            assert(line[i] == "."@[0]);
        } else if i < key.len() {
            assert(line[i] == field[i - (8 + name.len() + 1)]);
        } else if i == key.len() {
            assert(line[i] == ' ');
        } else {
            assert(line[i] == value[i - (key.len() + 1)]);
        }
    }
}

/// The generalised round trip: parsing the rendered listing of `s` on
/// top of an accumulator that shares no name with `s` appends exactly
/// `s`.
proof fn lemma_parse_render_rec(acc: Seq<MappingV>, s: Seq<MappingV>)
    requires
        storable_registry(s),
        forall|k: int| 0 <= k < s.len() ==> index_of_name(acc, #[trigger] s[k].subdir) == -1,
    ensures
        parse_lines(acc, split_lines(config_text(s))) == acc + s,
    decreases s.len(),
{
    if s.len() == 0 {
        assert(config_text(s) =~= Seq::<char>::empty());
        assert(split_lines(config_text(s)) =~= Seq::<Seq<char>>::empty());
        assert(acc + s =~= acc);
    } else {
        let m = s[0];
        assert(storable_mapping(m));
        reveal_strlit("remote");
        reveal_strlit("url");
        reveal_strlit("branch");
        assert(forall|i: int| 0 <= i < 6 ==> "remote"@[i] != '\n' && "remote"@[i] != '\r');
        assert(forall|i: int| 0 <= i < 3 ==> "url"@[i] != '\n' && "url"@[i] != '\r');
        assert(forall|i: int| 0 <= i < 6 ==> "branch"@[i] != '\n' && "branch"@[i] != '\r');
        let lr = config_key(m.subdir, "remote"@) + " "@ + m.remote;
        let lu = config_key(m.subdir, "url"@) + " "@ + m.url;
        let lb = config_key(m.subdir, "branch"@) + " "@ + m.branch;
        let rest = s.drop_first();
        let t2 = lb + "\n"@ + config_text(rest);
        let t1 = lu + "\n"@ + t2;
        let t0 = lr + "\n"@ + t1;
        assert(config_text(s) =~= t0);
        lemma_line_clean(m.subdir, "remote"@, m.remote);
        lemma_line_clean(m.subdir, "url"@, m.url);
        lemma_line_clean(m.subdir, "branch"@, m.branch);
        lemma_split_line_prefix(lr, t1);
        lemma_split_line_prefix(lu, t2);
        lemma_split_line_prefix(lb, config_text(rest));
        assert(split_lines(t0) =~= seq![lr, lu, lb] + split_lines(config_text(rest)));
        lemma_parse_lines_append(acc, seq![lr, lu, lb], split_lines(config_text(rest)));
        lemma_parse_mapping(acc, m);
        let acc1 = acc.push(m);
        assert forall|k: int| 0 <= k < rest.len() implies index_of_name(
            acc1,
            #[trigger] rest[k].subdir,
        ) == -1 by {
            assert(rest[k] == s[k + 1]);
            lemma_index_of_name(acc, rest[k].subdir);
            lemma_index_of_name(acc1, rest[k].subdir);
            assert(rest[k].subdir != m.subdir);
            assert(forall|i: int| 0 <= i < acc.len() ==> acc1[i] == acc[i]);
        }
        assert(names_unique(rest) && forall|i: int|
            0 <= i < rest.len() ==> storable_mapping(#[trigger] rest[i])) by {
            assert(forall|i: int| 0 <= i < rest.len() ==> rest[i] == s[i + 1]);
        }
        lemma_parse_render_rec(acc1, rest);
        assert(acc1 + rest =~= acc + s);
    }
}

// ---------------------------------------------------------------------------
// Removal persists: the namespace model.  The engine's configuration is
// a sequence of `<key> <value>` entries; `replace-all` wrote them,
// `unset-all` deletes them, and the listing prints them in order.  The
// law below shows that the three commands of `remove_cmds(name)` turn
// the namespace of a registry into the namespace of the registry without
// `name`, so the next load cannot resurrect the removed mapping.
// ---------------------------------------------------------------------------
/// One `<key> <value>` entry of the engine's configuration namespace.
#[verifier::ext_equal]
pub ghost struct KeyValue {
    pub key: Seq<char>,
    pub value: Seq<char>,
}

/// The three entries that hold one mapping.
pub open spec fn mapping_entries(m: MappingV) -> Seq<KeyValue> {
    seq![
        KeyValue { key: config_key(m.subdir, "remote"@), value: m.remote },
        KeyValue { key: config_key(m.subdir, "url"@), value: m.url },
        KeyValue { key: config_key(m.subdir, "branch"@), value: m.branch },
    ]
}

/// The namespace that holds exactly registry `s`: three entries per
/// mapping, in registry order — what the commands of `save` leave in an
/// otherwise empty namespace.
pub open spec fn store_of(s: Seq<MappingV>) -> Seq<KeyValue>
    decreases s.len(),
{
    if s.len() == 0 {
        Seq::<KeyValue>::empty()
    } else {
        mapping_entries(s[0]) + store_of(s.drop_first())
    }
}

/// The listing the engine prints for a namespace.
pub open spec fn store_text(st: Seq<KeyValue>) -> Seq<char>
    decreases st.len(),
{
    if st.len() == 0 {
        Seq::<char>::empty()
    } else {
        st[0].key + " "@ + st[0].value + "\n"@ + store_text(st.drop_first())
    }
}

/// The namespace after `config --unset-all <key>`: every entry under
/// that key is gone, the rest keep their order.
pub open spec fn store_unset(st: Seq<KeyValue>, key: Seq<char>) -> Seq<KeyValue>
    decreases st.len(),
{
    if st.len() == 0 {
        st
    } else {
        let rest = store_unset(st.drop_first(), key);
        if st[0].key == key {
            rest
        } else {
            seq![st[0]] + rest
        }
    }
}

/// The namespace after the three commands of `remove_cmds(name)` ran.
pub open spec fn store_after_remove(st: Seq<KeyValue>, name: Seq<char>) -> Seq<KeyValue> {
    store_unset(
        store_unset(store_unset(st, config_key(name, "remote"@)), config_key(name, "url"@)),
        config_key(name, "branch"@),
    )
}

proof fn lemma_store_text_append(a: Seq<KeyValue>, b: Seq<KeyValue>)
    ensures
        store_text(a + b) == store_text(a) + store_text(b),
    decreases a.len(),
{
    if a.len() == 0 {
        assert(a + b =~= b);
        assert(store_text(a) + store_text(b) =~= store_text(b));
    } else {
        assert((a + b)[0] == a[0]);
        assert((a + b).drop_first() =~= a.drop_first() + b);
        lemma_store_text_append(a.drop_first(), b);
        assert(store_text(a + b) =~= store_text(a) + store_text(b));
    }
}

/// The listing of a registry's namespace is the registry's listing.
proof fn lemma_store_text_of(s: Seq<MappingV>)
    ensures
        store_text(store_of(s)) == config_text(s),
    decreases s.len(),
{
    if s.len() > 0 {
        let m = s[0];
        let e = mapping_entries(m);
        lemma_store_text_append(e, store_of(s.drop_first()));
        lemma_store_text_of(s.drop_first());
        let empty_kv = Seq::<KeyValue>::empty();
        assert(store_text(empty_kv) =~= Seq::<char>::empty());
        assert(seq![e[2]].drop_first() =~= empty_kv);
        assert(store_text(seq![e[2]]) =~= e[2].key + " "@ + e[2].value + "\n"@);
        assert(seq![e[1], e[2]].drop_first() =~= seq![e[2]]);
        assert(store_text(seq![e[1], e[2]]) =~= e[1].key + " "@ + e[1].value + "\n"@
            + store_text(seq![e[2]]));
        assert(e.drop_first() =~= seq![e[1], e[2]]);
        assert(store_text(e) =~= mapping_text(m));
        assert(store_text(store_of(s)) =~= config_text(s));
    }
}

proof fn lemma_store_unset_append(a: Seq<KeyValue>, b: Seq<KeyValue>, key: Seq<char>)
    ensures
        store_unset(a + b, key) == store_unset(a, key) + store_unset(b, key),
    decreases a.len(),
{
    if a.len() == 0 {
        assert(a + b =~= b);
        assert(store_unset(a, key) + store_unset(b, key) =~= store_unset(b, key));
    } else {
        assert((a + b)[0] == a[0]);
        assert((a + b).drop_first() =~= a.drop_first() + b);
        lemma_store_unset_append(a.drop_first(), b, key);
        assert(store_unset(a + b, key) =~= store_unset(a, key) + store_unset(b, key));
    }
}

proof fn lemma_store_after_remove_append(a: Seq<KeyValue>, b: Seq<KeyValue>, name: Seq<char>)
    ensures
        store_after_remove(a + b, name) == store_after_remove(a, name) + store_after_remove(
            b,
            name,
        ),
{
    lemma_store_unset_append(a, b, config_key(name, "remote"@));
    lemma_store_unset_append(
        store_unset(a, config_key(name, "remote"@)),
        store_unset(b, config_key(name, "remote"@)),
        config_key(name, "url"@),
    );
    lemma_store_unset_append(
        store_unset(store_unset(a, config_key(name, "remote"@)), config_key(name, "url"@)),
        store_unset(store_unset(b, config_key(name, "remote"@)), config_key(name, "url"@)),
        config_key(name, "branch"@),
    );
}

proof fn lemma_store_unset_none(st: Seq<KeyValue>, key: Seq<char>)
    requires
        forall|i: int| 0 <= i < st.len() ==> st[i].key != key,
    ensures
        store_unset(st, key) == st,
    decreases st.len(),
{
    if st.len() > 0 {
        assert(forall|i: int|
            0 <= i < st.drop_first().len() ==> st.drop_first()[i] == st[i + 1]
                && st.drop_first()[i].key != key);
        lemma_store_unset_none(st.drop_first(), key);
        assert(seq![st[0]] + st.drop_first() =~= st);
    }
}

/// Keys of mappings with different dot-free names never collide.
proof fn lemma_config_key_distinct(n1: Seq<char>, f1: Seq<char>, n2: Seq<char>, f2: Seq<char>)
    requires
        !has_char(n1, '.'),
        !has_char(n2, '.'),
        n1 != n2,
    ensures
        config_key(n1, f1) != config_key(n2, f2),
{
    reveal_strlit("gh-sync.");
    reveal_strlit(".");
    let k1 = config_key(n1, f1);
    let k2 = config_key(n2, f2);
    if k1 == k2 {
        let r1 = k1.skip(8);
        let r2 = k2.skip(8);
        assert(r1 =~= n1 + "."@ + f1);
        assert(r2 =~= n2 + "."@ + f2);
        assert(r1[n1.len() as int] == '.');
        assert forall|i: int| 0 <= i < n1.len() implies r1[i] != '.' by {
            assert(r1[i] == n1[i]);
        }
        crate::strutil::lemma_index_of_exact(r1, '.', n1.len() as int);
        assert(r2[n2.len() as int] == '.');
        assert forall|i: int| 0 <= i < n2.len() implies r2[i] != '.' by {
            assert(r2[i] == n2[i]);
        }
        crate::strutil::lemma_index_of_exact(r2, '.', n2.len() as int);
        assert(r1 == r2);
        assert(n1.len() == n2.len());
        assert forall|i: int| 0 <= i < n1.len() implies n1[i] == n2[i] by {
            assert(r1[i] == n1[i]);
            assert(r2[i] == n2[i]);
        }
        assert(n1 =~= n2);
        assert(false);
    }
}

/// The three keys of one name are pairwise distinct.
proof fn lemma_config_key_fields(n: Seq<char>)
    ensures
        config_key(n, "remote"@) != config_key(n, "url"@),
        config_key(n, "remote"@) != config_key(n, "branch"@),
        config_key(n, "url"@) != config_key(n, "branch"@),
{
    reveal_strlit("gh-sync.");
    reveal_strlit(".");
    reveal_strlit("remote");
    reveal_strlit("url");
    reveal_strlit("branch");
    let kr = config_key(n, "remote"@);
    let ku = config_key(n, "url"@);
    let kb = config_key(n, "branch"@);
    assert(kr.len() == 9 + n.len() + 6);
    assert(ku.len() == 9 + n.len() + 3);
    assert(kb.len() == 9 + n.len() + 6);
    assert(kr[9 + n.len() as int] == "remote"@[0]);
    assert(kb[9 + n.len() as int] == "branch"@[0]);
    if kr == kb {
        assert(false);
    }
}

/// The removal commands wipe the removed name's own entries entirely.
proof fn lemma_store_unset_mapping_self(m: MappingV, name: Seq<char>)
    requires
        m.subdir == name,
    ensures
        store_after_remove(mapping_entries(m), name) == Seq::<KeyValue>::empty(),
{
    lemma_config_key_fields(name);
    let e = mapping_entries(m);
    let kr = config_key(name, "remote"@);
    let ku = config_key(name, "url"@);
    let kb = config_key(name, "branch"@);
    let empty_kv = Seq::<KeyValue>::empty();
    assert(e.drop_first() =~= seq![e[1], e[2]]);
    assert(seq![e[1], e[2]].drop_first() =~= seq![e[2]]);
    assert(seq![e[2]].drop_first() =~= empty_kv);
    assert(store_unset(empty_kv, kr) =~= empty_kv);
    assert(store_unset(empty_kv, ku) =~= empty_kv);
    assert(store_unset(empty_kv, kb) =~= empty_kv);
    // unset of the remote key drops the first entry only
    assert(store_unset(seq![e[2]], kr) =~= seq![e[2]]);
    assert(store_unset(seq![e[1], e[2]], kr) =~= seq![e[1], e[2]]);
    assert(store_unset(e, kr) =~= seq![e[1], e[2]]);
    // unset of the url key drops what is now first
    assert(store_unset(seq![e[2]], ku) =~= seq![e[2]]);
    assert(store_unset(seq![e[1], e[2]], ku) =~= seq![e[2]]);
    // unset of the branch key drops the last
    assert(store_unset(seq![e[2]], kb) =~= empty_kv);
    assert(store_after_remove(e, name) =~= empty_kv);
}

/// The removal commands leave every other mapping's entries untouched.
proof fn lemma_store_unset_mapping_other(m: MappingV, name: Seq<char>)
    requires
        !has_char(m.subdir, '.'),
        !has_char(name, '.'),
        m.subdir != name,
    ensures
        store_after_remove(mapping_entries(m), name) == mapping_entries(m),
{
    let e = mapping_entries(m);
    lemma_config_key_distinct(m.subdir, "remote"@, name, "remote"@);
    lemma_config_key_distinct(m.subdir, "url"@, name, "remote"@);
    lemma_config_key_distinct(m.subdir, "branch"@, name, "remote"@);
    lemma_config_key_distinct(m.subdir, "remote"@, name, "url"@);
    lemma_config_key_distinct(m.subdir, "url"@, name, "url"@);
    lemma_config_key_distinct(m.subdir, "branch"@, name, "url"@);
    lemma_config_key_distinct(m.subdir, "remote"@, name, "branch"@);
    lemma_config_key_distinct(m.subdir, "url"@, name, "branch"@);
    lemma_config_key_distinct(m.subdir, "branch"@, name, "branch"@);
    assert forall|i: int| 0 <= i < e.len() implies e[i].key != config_key(name, "remote"@) by {}
    lemma_store_unset_none(e, config_key(name, "remote"@));
    assert forall|i: int| 0 <= i < e.len() implies e[i].key != config_key(name, "url"@) by {}
    lemma_store_unset_none(e, config_key(name, "url"@));
    assert forall|i: int| 0 <= i < e.len() implies e[i].key != config_key(name, "branch"@) by {}
    lemma_store_unset_none(e, config_key(name, "branch"@));
}

/// The removal commands turn the namespace of `s` into the namespace of
/// `s` without `name`.
proof fn lemma_store_remove(s: Seq<MappingV>, name: Seq<char>)
    requires
        storable_registry(s),
        !has_char(name, '.'),
    ensures
        store_after_remove(store_of(s), name) == store_of(spec_remove(s, name)),
    decreases s.len(),
{
    lemma_index_of_name(s, name);
    if s.len() == 0 {
        assert(store_after_remove(store_of(s), name) =~= Seq::<KeyValue>::empty());
    } else {
        let m = s[0];
        let rest = s.drop_first();
        assert(storable_mapping(m));
        assert(names_unique(rest) && forall|i: int|
            0 <= i < rest.len() ==> storable_mapping(#[trigger] rest[i])) by {
            assert(forall|i: int| 0 <= i < rest.len() ==> rest[i] == s[i + 1]);
        }
        lemma_store_after_remove_append(mapping_entries(m), store_of(rest), name);
        lemma_store_remove(rest, name);
        lemma_index_of_name(rest, name);
        if m.subdir == name {
            lemma_store_unset_mapping_self(m, name);
            // the rest holds no mapping named `name`
            assert(forall|i: int| 0 <= i < rest.len() ==> rest[i].subdir != name);
            assert(index_of_name(rest, name) == -1);
            assert(spec_remove(rest, name) == rest);
            assert(Seq::<KeyValue>::empty() + store_of(rest) =~= store_of(rest));
            assert(spec_remove(s, name) =~= rest);
            assert(store_after_remove(store_of(s), name) == store_of(spec_remove(s, name)));
        } else {
            lemma_store_unset_mapping_other(m, name);
            let idx = index_of_name(s, name);
            if idx >= 0 {
                assert(index_of_name(rest, name) == idx - 1);
                assert(spec_remove(s, name) =~= seq![m] + spec_remove(rest, name));
                let t = seq![m] + spec_remove(rest, name);
                assert(t[0] == m);
                assert(t.drop_first() =~= spec_remove(rest, name));
                assert(store_of(t) == mapping_entries(m) + store_of(spec_remove(rest, name)));
                assert(store_after_remove(store_of(s), name) == store_of(spec_remove(s, name)));
            } else {
                assert(index_of_name(rest, name) == -1);
                assert(spec_remove(rest, name) == rest);
                assert(spec_remove(s, name) == s);
                assert(mapping_entries(m) + store_of(rest) =~= store_of(s));
                assert(store_after_remove(store_of(s), name) == store_of(s));
            }
        }
    }
}

/// Removing a mapping keeps the registry storable.
proof fn lemma_remove_storable(s: Seq<MappingV>, name: Seq<char>)
    requires
        storable_registry(s),
    ensures
        storable_registry(spec_remove(s, name)),
{
    lemma_remove_get(s, name);
    lemma_index_of_name(s, name);
    let idx = index_of_name(s, name);
    if idx >= 0 {
        let t = spec_remove(s, name);
        assert forall|i: int| 0 <= i < t.len() implies storable_mapping(#[trigger] t[i]) by {
            if i < idx {
                assert(t[i] == s[i]);
            } else {
                assert(t[i] == s[i + 1]);
            }
        }
    }
}

/// Removal persists: starting from a namespace that holds exactly the
/// keys of storable registry `s` — the removed name's among them — the
/// three commands of `remove_cmds(name)` leave exactly the namespace of
/// the shrunken registry, whose listing decodes back to that registry,
/// and the removed name answers to no lookup in it.  A name the key
/// grammar cannot carry (one containing a dot) never reaches the store.
pub proof fn lemma_remove_persists(s: Seq<MappingV>, name: Seq<char>)
    requires
        storable_registry(s),
        !has_char(name, '.'),
    ensures
        storable_registry(spec_remove(s, name)),
        store_after_remove(store_of(s), name) == store_of(spec_remove(s, name)),
        store_text(store_of(spec_remove(s, name))) == config_text(spec_remove(s, name)),
        parse_config(store_text(store_after_remove(store_of(s), name))) == spec_remove(s, name),
        spec_get(spec_remove(s, name), name) is None,
{
    lemma_remove_storable(s, name);
    lemma_store_remove(s, name);
    lemma_store_text_of(spec_remove(s, name));
    lemma_save_load_round_trip(spec_remove(s, name));
    lemma_remove_get(s, name);
}

/// Round-trip persistence: for any storable registry, decoding the
/// listing that holds exactly what `save` wrote yields an equal registry
/// — same names, same field values, in the same order.
pub proof fn lemma_save_load_round_trip(s: Seq<MappingV>)
    requires
        storable_registry(s),
    ensures
        parse_config(config_text(s)) == s,
{
    assert(forall|k: int|
        0 <= k < s.len() ==> index_of_name(Seq::<MappingV>::empty(), #[trigger] s[k].subdir)
            == -1);
    lemma_parse_render_rec(Seq::<MappingV>::empty(), s);
    assert(Seq::<MappingV>::empty() + s =~= s);
}

}
