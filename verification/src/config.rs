//! The key/value configuration of the tutor (read from a YAML file), and the
//! settings derived from it.

use vstd::prelude::*;
use std::collections::BTreeMap;

verus! {

/// A string-to-string table, in the order its entries were made: the
/// configuration file, and the placeholder values of the tutor template.
pub struct Config {
    entries: Vec<(String, String)>,
}

/// A configuration entry as mathematical text.
pub type EntrySpec = (Seq<char>, Seq<char>);

impl View for Config {
    type V = Seq<EntrySpec>;

    closed spec fn view(&self) -> Seq<EntrySpec> {
        entries_view(self.entries@)
    }
}

/// The values of a list of entries.
pub open spec fn entries_view(v: Seq<(String, String)>) -> Seq<EntrySpec> {
    v.map_values(|e: (String, String)| (e.0@, e.1@))
}

/// The value of the first entry with key `k`, if any.
pub open spec fn lookup(es: Seq<EntrySpec>, k: Seq<char>) -> Option<Seq<char>>
    decreases es.len(),
{
    if es.len() == 0 {
        None
    } else if es[0].0 == k {
        Some(es[0].1)
    } else {
        lookup(es.drop_first(), k)
    }
}

/// `es` with the first entry of key `k` given the value `v`, or with `(k, v)`
/// added at the end when there is no such entry (what inserting into a map
/// does).
pub open spec fn upsert(es: Seq<EntrySpec>, k: Seq<char>, v: Seq<char>) -> Seq<EntrySpec>
    decreases es.len(),
{
    if es.len() == 0 {
        seq![(k, v)]
    } else if es[0].0 == k {
        seq![(k, v)] + es.drop_first()
    } else {
        seq![es[0]] + upsert(es.drop_first(), k, v)
    }
}

/// No key occurs twice.
pub open spec fn keys_distinct(es: Seq<EntrySpec>) -> bool {
    forall|i: int, j: int| 0 <= i < j < es.len() ==> es[i].0 != es[j].0
}

/// The entries that `serde_yaml` reads from a YAML text as a map of strings
/// to strings, in key order; `None` when the text is not such a map.
pub uninterp spec fn yaml_string_map(text: Seq<char>) -> Option<Seq<EntrySpec>>;

/// The `serde_yaml::Error` type.
#[verifier::external_type_specification]
#[verifier::external_body]
pub struct ExYamlError(serde_yaml::Error);

/// `serde_yaml::from_str::<BTreeMap<String, String>>`: reads `text` as a
/// YAML mapping of strings to strings. The contract names the result (the
/// same text gives the same entries) and states that, being the entries of a
/// map, no key occurs twice; it does not state the YAML grammar.
#[verifier::external_body]
fn yaml_entries(text: &str) -> (res: Result<Vec<(String, String)>, serde_yaml::Error>)
    ensures
        match res {
            Ok(es) => yaml_string_map(text@) == Some(entries_view(es@)) && keys_distinct(entries_view(es@)),
            Err(_) => yaml_string_map(text@) is None,
        },
{
    serde_yaml::from_str::<BTreeMap<String, String>>(text).map(|m| m.into_iter().collect())
}

/// Why a configuration text was refused.
pub enum ConfigError {
    /// The text is not a YAML mapping of strings to strings.
    InvalidYaml(serde_yaml::Error),
}

fn copy_string(s: &String) -> (res: String)
    ensures
        res@ == s@,
{
    s.clone()
}

/// The first entry of key `k` in `es` is at index `j`.
proof fn lemma_upsert_at(es: Seq<EntrySpec>, k: Seq<char>, v: Seq<char>, j: int)
    requires
        0 <= j < es.len(),
        es[j].0 == k,
        forall|i: int| 0 <= i < j ==> es[i].0 != k,
    ensures
        upsert(es, k, v) == es.update(j, (k, v)),
    decreases es.len(),
{
    if j > 0 {
        lemma_upsert_at(es.drop_first(), k, v, j - 1);
        assert(seq![es[0]] + es.drop_first().update(j - 1, (k, v)) =~= es.update(j, (k, v)));
    } else {
        assert(seq![(k, v)] + es.drop_first() =~= es.update(0, (k, v)));
    }
}

/// There is no entry of key `k` in `es`.
proof fn lemma_upsert_absent(es: Seq<EntrySpec>, k: Seq<char>, v: Seq<char>)
    requires
        forall|i: int| 0 <= i < es.len() ==> es[i].0 != k,
    ensures
        upsert(es, k, v) == es.push((k, v)),
    decreases es.len(),
{
    if es.len() > 0 {
        lemma_upsert_absent(es.drop_first(), k, v);
        assert(seq![es[0]] + es.drop_first().push((k, v)) =~= es.push((k, v)));
    } else {
        assert(seq![(k, v)] =~= es.push((k, v)));
    }
}

proof fn lemma_lookup_skip(es: Seq<EntrySpec>, k: Seq<char>, i: int)
    requires
        0 <= i < es.len(),
        es[i].0 != k,
    ensures
        lookup(es.skip(i), k) == lookup(es.skip(i + 1), k),
{
    assert(es.skip(i).drop_first() == es.skip(i + 1));
}

impl Config {
    /// The table is a map: no key occurs twice.
    #[verifier::type_invariant]
    spec fn keys_unique(self) -> bool {
        keys_distinct(self@)
    }

    /// An empty table.
    pub fn new() -> (res: Config)
        ensures
            res@ == Seq::<EntrySpec>::empty(),
    {
        let c = Config { entries: Vec::new() };
        assert(c@ =~= Seq::<EntrySpec>::empty());
        c
    }

    /// Reads a YAML mapping of strings to strings.
    pub fn from_yaml(text: &str) -> (res: Result<Config, ConfigError>)
        ensures
            match res {
                Ok(c) => yaml_string_map(text@) == Some(c@),
                Err(_) => yaml_string_map(text@) is None,
            },
    {
        match yaml_entries(text) {
            Ok(es) => Ok(Config { entries: es }),
            Err(e) => Err(ConfigError::InvalidYaml(e)),
        }
    }

    /// The entries, in order; no key occurs twice.
    pub fn entries(&self) -> (res: &Vec<(String, String)>)
        ensures
            entries_view(res@) == self@,
            keys_distinct(self@),
    {
        proof {
            use_type_invariant(self);
        }
        &self.entries
    }

    /// The value of key `k`, if any.
    pub fn get(&self, k: &str) -> (res: Option<String>)
        ensures
            match res {
                Some(v) => lookup(self@, k@) == Some(v@),
                None => lookup(self@, k@) is None,
            },
    {
        let key = k.to_string();
        let n = self.entries.len();
        let ghost es = self@;
        assert(es.skip(0) == es);
        for i in 0..n
            invariant
                n == es.len(),
                es == self@,
                key@ == k@,
                lookup(es, k@) == lookup(es.skip(i as int), k@),
        {
            assert(es[i as int] == (self.entries@[i as int].0@, self.entries@[i as int].1@));
            if self.entries[i].0 == key {
                assert(es.skip(i as int)[0] == es[i as int]);
                return Some(copy_string(&self.entries[i].1));
            }
            proof {
                lemma_lookup_skip(es, k@, i as int);
            }
        }
        assert(es.skip(n as int).len() == 0);
        None
    }

    /// The value of key `k`, or `default` when there is none.
    pub fn get_or(&self, k: &str, default: &str) -> (res: String)
        ensures
            res@ == match lookup(self@, k@) {
                Some(v) => v,
                None => default@,
            },
    {
        match self.get(k) {
            Some(v) => v,
            None => default.to_string(),
        }
    }

    /// Sets key `k` to `v`: the first entry of `k` takes the new value, or
    /// the entry is added at the end.
    pub fn set(&mut self, k: &str, v: &str)
        ensures
            final(self)@ == upsert(old(self)@, k@, v@),
    {
        proof {
            use_type_invariant(&*self);
            lemma_upsert_distinct(self@, k@, v@);
        }
        let key = k.to_string();
        let value = v.to_string();
        let mut items: Vec<(String, String)> = Vec::new();
        std::mem::swap(&mut items, &mut self.entries);
        let n = items.len();
        let ghost es = old(self)@;
        assert(entries_view(items@) == es);
        for i in 0..n
            invariant
                n == es.len(),
                entries_view(items@) == es,
                es == old(self)@,
                keys_distinct(upsert(es, k@, v@)),
                n == items@.len(),
                key@ == k@,
                value@ == v@,
                forall|j: int| 0 <= j < i ==> es[j].0 != k@,
        {
            assert(es[i as int] == (items@[i as int].0@, items@[i as int].1@));
            if items[i].0 == key {
                proof {
                    lemma_upsert_at(es, k@, v@, i as int);
                }
                items.set(i, (key, value));
                assert(entries_view(items@) =~= es.update(i as int, (k@, v@)));
                self.entries = items;
                return;
            }
        }
        proof {
            lemma_upsert_absent(es, k@, v@);
        }
        items.push((key, value));
        assert(entries_view(items@) =~= es.push((k@, v@)));
        self.entries = items;
    }

    /// A copy of the table.
    pub fn copy(&self) -> (res: Config)
        ensures
            res@ == self@,
    {
        proof {
            use_type_invariant(self);
        }
        let mut es: Vec<(String, String)> = Vec::new();
        let n = self.entries.len();
        for i in 0..n
            invariant
                n == self.entries@.len(),
                entries_view(es@) == self@.take(i as int),
        {
            let e = (copy_string(&self.entries[i].0), copy_string(&self.entries[i].1));
            let ghost before = es@;
            es.push(e);
            assert(entries_view(es@) =~= entries_view(before).push((e.0@, e.1@)));
            assert(self@.take(i + 1) =~= self@.take(i as int).push(self@[i as int]));
        }
        assert(self@.take(n as int) =~= self@);
        Config { entries: es }
    }
}

/// Setting a key and reading it back gives the value that was set; every
/// other key keeps its value.
pub proof fn lemma_lookup_upsert(es: Seq<EntrySpec>, k: Seq<char>, v: Seq<char>, k2: Seq<char>)
    ensures
        lookup(upsert(es, k, v), k) == Some(v),
        k2 != k ==> lookup(upsert(es, k, v), k2) == lookup(es, k2),
    decreases es.len(),
{
    if es.len() > 0 && es[0].0 != k {
        lemma_lookup_upsert(es.drop_first(), k, v, k2);
        let u = seq![es[0]] + upsert(es.drop_first(), k, v);
        assert(u.drop_first() == upsert(es.drop_first(), k, v));
        assert(u[0] == es[0]);
    } else if es.len() > 0 {
        let u = seq![(k, v)] + es.drop_first();
        assert(u.drop_first() == es.drop_first());
        assert(u[0] == (k, v));
    } else {
        assert(seq![(k, v)].drop_first().len() == 0);
        assert(lookup(seq![(k, v)].drop_first(), k2) is None);
    }
}

/// What `lookup` finds after one more entry is added at the end: the same
/// value when the key was there already, else the new entry's value when it
/// has that key.
pub(crate) proof fn lemma_lookup_push(es: Seq<EntrySpec>, e: EntrySpec, k: Seq<char>)
    ensures
        lookup(es.push(e), k) == match lookup(es, k) {
            Some(x) => Some(x),
            None => if e.0 == k {
                Some(e.1)
            } else {
                None
            },
        },
    decreases es.len(),
{
    if es.len() == 0 {
        assert(es.push(e).drop_first() =~= Seq::<EntrySpec>::empty());
    } else {
        assert(es.push(e).drop_first() =~= es.drop_first().push(e));
        assert(es.push(e)[0] == es[0]);
        if es[0].0 != k {
            lemma_lookup_push(es.drop_first(), e, k);
        }
    }
}

/// `lookup` finds a value of an entry of the table, and finds nothing only
/// when no entry has the key; when the keys are distinct, it finds the value
/// of every entry.
pub(crate) proof fn lemma_lookup_entries(es: Seq<EntrySpec>, k: Seq<char>)
    ensures
        lookup(es, k) matches Some(v) ==> es.contains((k, v)),
        lookup(es, k) is None ==> forall|i: int| 0 <= i < es.len() ==> es[i].0 != k,
        keys_distinct(es) ==> forall|v: Seq<char>| es.contains((k, v)) ==> lookup(es, k) == Some(v),
    decreases es.len(),
{
    if es.len() > 0 {
        let d = es.drop_first();
        lemma_lookup_entries(d, k);
        if es[0].0 == k {
            assert(es[0] == (k, es[0].1));
            if keys_distinct(es) {
                assert forall|v: Seq<char>| es.contains((k, v)) implies lookup(es, k) == Some(v) by {
                    let i = choose|i: int| 0 <= i < es.len() && es[i] == (k, v);
                    if i > 0 {
                        assert(es[0].0 != es[i].0);
                    }
                }
            }
        } else {
            assert forall|i: int| 0 <= i < es.len() && lookup(es, k) is None implies es[i].0 != k by {
                if i > 0 {
                    assert(es[i] == d[i - 1]);
                }
            }
            if let Some(v) = lookup(es, k) {
                let j = choose|j: int| 0 <= j < d.len() && d[j] == (k, v);
                assert(es[j + 1] == d[j]);
            }
            if keys_distinct(es) {
                assert(keys_distinct(d)) by {
                    assert forall|i: int, j: int| 0 <= i < j < d.len() implies d[i].0 != d[j].0 by {
                        assert(d[i] == es[i + 1]);
                        assert(d[j] == es[j + 1]);
                    }
                }
                assert forall|v: Seq<char>| es.contains((k, v)) implies lookup(es, k) == Some(v) by {
                    let i = choose|i: int| 0 <= i < es.len() && es[i] == (k, v);
                    assert(i > 0);
                    assert(d[i - 1] == es[i]);
                }
            }
        }
    }
}

/// Setting a key keeps the keys distinct.
pub proof fn lemma_upsert_distinct(es: Seq<EntrySpec>, k: Seq<char>, v: Seq<char>)
    requires
        keys_distinct(es),
    ensures
        keys_distinct(upsert(es, k, v)),
{
    let found = exists|j: int| 0 <= j < es.len() && es[j].0 == k;
    if found {
        let j0 = choose|j: int| 0 <= j < es.len() && es[j].0 == k;
        assert forall|i: int| 0 <= i < j0 implies es[i].0 != k by {}
        lemma_upsert_at(es, k, v, j0);
    } else {
        lemma_upsert_absent(es, k, v);
    }
}

/// The configured model (`model`), or the default model.
pub fn model_name(config: &Config) -> (res: String)
    ensures
        res@ == match lookup(config@, "model"@) {
            Some(v) => v,
            None => "gemma-4:31"@,
        },
{
    config.get_or("model", "gemma-4:31")
}

/// The configured model server (`OLLAMA_URL`), or the default one.
pub fn server_url(config: &Config) -> (res: String)
    ensures
        res@ == match lookup(config@, "OLLAMA_URL"@) {
            Some(v) => v,
            None => "http://localhost:11434"@,
        },
{
    config.get_or("OLLAMA_URL", "http://localhost:11434")
}

/// The language of explanations (`EXPLANATION_LANGUAGE`), German by default.
pub fn explanation_language(config: &Config) -> (res: String)
    ensures
        res@ == match lookup(config@, "EXPLANATION_LANGUAGE"@) {
            Some(v) => v,
            None => "German"@,
        },
{
    config.get_or("EXPLANATION_LANGUAGE", "German")
}

/// The language being learnt (`LEARNING_LANGUAGE`), French by default.
pub fn learning_language(config: &Config) -> (res: String)
    ensures
        res@ == match lookup(config@, "LEARNING_LANGUAGE"@) {
            Some(v) => v,
            None => "French"@,
        },
{
    config.get_or("LEARNING_LANGUAGE", "French")
}

} // verus!
