use vstd::prelude::*;
use vstd::string::*;

verus! {

/// A key and a value, as character sequences.
pub type Entry = (Seq<char>, Seq<char>);

/// The character sequences of a list of key/value strings.
pub open spec fn entry_views(v: Seq<(String, String)>) -> Seq<Entry> {
    v.map_values(|p: (String, String)| (p.0@, p.1@))
}

/// No two entries share a key.
pub open spec fn keys_unique(s: Seq<Entry>) -> bool {
    forall|i: int, j: int| 0 <= i < j < s.len() ==> s[i].0 != s[j].0
}

/// Index of the last entry of `s` with key `k`, or -1 where there is none.
pub open spec fn key_position(s: Seq<Entry>, k: Seq<char>) -> int
    decreases s.len(),
{
    if s.len() == 0 {
        -1
    } else if s.last().0 == k {
        s.len() - 1
    } else {
        key_position(s.drop_last(), k)
    }
}

/// The entries of `s` as an object with one value per key: a later entry
/// replaces the value of an earlier one with the same key, in its place.
pub open spec fn merge_entries(s: Seq<Entry>) -> Seq<Entry>
    decreases s.len(),
{
    if s.len() == 0 {
        Seq::empty()
    } else {
        let m = merge_entries(s.drop_last());
        let i = key_position(m, s.last().0);
        if i >= 0 {
            m.update(i, s.last())
        } else {
            m.push(s.last())
        }
    }
}

/// What a configuration holds.
pub struct ConfigView {
    pub base: Seq<char>,
    pub mapping: Seq<Entry>,
    pub alias: Seq<Entry>,
}

/// The configuration built from a base, mapping entries and alias entries.
pub open spec fn config_of(base: Seq<char>, mapping: Seq<Entry>, alias: Seq<Entry>) -> ConfigView {
    ConfigView { base, mapping: merge_entries(mapping), alias: merge_entries(alias) }
}

/// Where files go, by extension. `mapping` pairs a comma-separated list of
/// extensions with a directory relative to `base`. `alias` is kept as it was
/// read; no decision consults it.
pub struct Config {
    base: String,
    mapping: Vec<(String, String)>,
    alias: Vec<(String, String)>,
}

impl View for Config {
    type V = ConfigView;

    closed spec fn view(&self) -> ConfigView {
        ConfigView {
            base: self.base@,
            mapping: entry_views(self.mapping@),
            alias: entry_views(self.alias@),
        }
    }
}

impl Config {
    /// Each key of the mapping and of the alias table occurs once.
    pub open spec fn wf(&self) -> bool {
        keys_unique(self@.mapping) && keys_unique(self@.alias)
    }

    /// The directory that every destination is relative to; may be empty.
    pub fn base(&self) -> (r: &String)
        ensures
            r@ == self@.base,
    {
        &self.base
    }

    /// The mapping entries: extension lists and their destinations.
    pub fn mapping(&self) -> (r: &Vec<(String, String)>)
        ensures
            entry_views(r@) == self@.mapping,
    {
        &self.mapping
    }

    /// The alias entries.
    pub fn alias(&self) -> (r: &Vec<(String, String)>)
        ensures
            entry_views(r@) == self@.alias,
    {
        &self.alias
    }

    /// The three fields, as `parse_config` takes them.
    pub fn into_parts(self) -> (r: (String, Vec<(String, String)>, Vec<(String, String)>))
        ensures
            r.0@ == self@.base,
            entry_views(r.1@) == self@.mapping,
            entry_views(r.2@) == self@.alias,
    {
        (self.base, self.mapping, self.alias)
    }
}

proof fn lemma_key_position(s: Seq<Entry>, k: Seq<char>)
    ensures
        -1 <= key_position(s, k) < s.len(),
        key_position(s, k) >= 0 ==> s[key_position(s, k)].0 == k,
        key_position(s, k) == -1 ==> forall|i: int| 0 <= i < s.len() ==> s[i].0 != k,
    decreases s.len(),
{
    if s.len() > 0 && s.last().0 != k {
        lemma_key_position(s.drop_last(), k);
        assert forall|i: int| 0 <= i < s.len() - 1 implies s[i] == s.drop_last()[i] by {}
    }
}

proof fn lemma_merge_unique(s: Seq<Entry>)
    ensures
        keys_unique(merge_entries(s)),
    decreases s.len(),
{
    if s.len() > 0 {
        let m = merge_entries(s.drop_last());
        lemma_merge_unique(s.drop_last());
        lemma_key_position(m, s.last().0);
    }
}

proof fn lemma_merge_of_unique(s: Seq<Entry>)
    requires
        keys_unique(s),
    ensures
        merge_entries(s) == s,
    decreases s.len(),
{
    if s.len() > 0 {
        let d = s.drop_last();
        assert(keys_unique(d));
        lemma_merge_of_unique(d);
        lemma_key_position(d, s.last().0);
        assert(d.push(s.last()) =~= s);
    }
}

/// Index of the entry of `v` with key `k`, searching from the end.
fn find_key(v: &Vec<(String, String)>, k: &String) -> (r: Option<usize>)
    ensures
        match r {
            Some(i) => i == key_position(entry_views(v@), k@),
            None => key_position(entry_views(v@), k@) == -1,
        },
{
    let ghost s = entry_views(v@);
    let mut i: usize = v.len();
    assert(s.subrange(0, i as int) =~= s);
    while i > 0
        invariant
            i <= v@.len(),
            s == entry_views(v@),
            key_position(s, k@) == key_position(s.subrange(0, i as int), k@),
        decreases i,
    {
        assert(s.subrange(0, i as int).drop_last() =~= s.subrange(0, i - 1));
        if v[i - 1].0 == *k {
            return Some(i - 1);
        }
        i = i - 1;
    }
    None
}

/// The entries as an object holds them: one per key, a later value
/// replacing an earlier one in its place.
fn merge(entries: Vec<(String, String)>) -> (r: Vec<(String, String)>)
    ensures
        entry_views(r@) == merge_entries(entry_views(entries@)),
{
    let ghost all = entry_views(entries@);
    let mut out: Vec<(String, String)> = Vec::new();
    let mut k: usize = 0;
    assert(all.subrange(0, 0) =~= Seq::<Entry>::empty());
    while k < entries.len()
        invariant
            k <= entries@.len(),
            all == entry_views(entries@),
            entry_views(out@) == merge_entries(all.subrange(0, k as int)),
        decreases entries@.len() - k,
    {
        let key = entries[k].0.clone();
        let value = entries[k].1.clone();
        assert(all.subrange(0, k + 1).drop_last() =~= all.subrange(0, k as int));
        let ghost before = out@;
        proof {
            lemma_key_position(entry_views(out@), key@);
        }
        match find_key(&out, &key) {
            Some(i) => {
                out.set(i, (key, value));
                assert(entry_views(out@) =~= entry_views(before).update(i as int, all[k as int]));
            },
            None => {
                out.push((key, value));
                assert(entry_views(out@) =~= entry_views(before).push(all[k as int]));
            },
        }
        k = k + 1;
    }
    assert(all.subrange(0, k as int) =~= all);
    out
}

/// The configuration made of a decoded document's fields. Entries with a key
/// seen before replace the earlier value, as in a JSON object.
pub fn parse_config(
    base: String,
    mapping: Vec<(String, String)>,
    alias: Vec<(String, String)>,
) -> (r: Config)
    ensures
        r@ == config_of(base@, entry_views(mapping@), entry_views(alias@)),
        r.wf(),
{
    proof {
        lemma_merge_unique(entry_views(mapping@));
        lemma_merge_unique(entry_views(alias@));
    }
    Config { base, mapping: merge(mapping), alias: merge(alias) }
}

/// The path of the configuration file to load: the one given, else the default.
pub fn config_path(given: Option<String>, default_config: String) -> (r: String)
    ensures
        r@ == match given {
            Some(p) => p@,
            None => default_config@,
        },
{
    match given {
        Some(p) => p,
        None => default_config,
    }
}

/// A configuration taken apart and built again is the same configuration.
pub proof fn lemma_config_round_trip(c: Config)
    requires
        c.wf(),
    ensures
        config_of(c@.base, c@.mapping, c@.alias) == c@,
{
    lemma_merge_of_unique(c@.mapping);
    lemma_merge_of_unique(c@.alias);
}

/// One line for each entry: two spaces, the key, `: `, the value.
pub open spec fn entry_lines(s: Seq<Entry>) -> Seq<char>
    decreases s.len(),
{
    if s.len() == 0 {
        Seq::empty()
    } else {
        entry_lines(s.drop_last()) + seq![' ', ' '] + s.last().0 + seq![':', ' '] + s.last().1
            + seq!['\n']
    }
}

/// The text of a configuration: its base, then its mapping and alias entries.
pub open spec fn rendered(c: ConfigView) -> Seq<char> {
    seq!['b', 'a', 's', 'e', ':', ' '] + c.base + seq!['\n'] + seq![
        'm',
        'a',
        'p',
        'p',
        'i',
        'n',
        'g',
        ':',
        '\n',
    ] + entry_lines(c.mapping) + seq!['A', 'l', 'i', 'a', 's', ':', '\n'] + entry_lines(c.alias)
}

fn append_lines(out: &mut String, entries: &Vec<(String, String)>)
    ensures
        final(out)@ == old(out)@ + entry_lines(entry_views(entries@)),
{
    let ghost s = entry_views(entries@);
    let mut i: usize = 0;
    assert(s.subrange(0, 0) =~= Seq::<Entry>::empty());
    assert(out@ + entry_lines(s.subrange(0, 0)) =~= out@);
    while i < entries.len()
        invariant
            i <= entries@.len(),
            s == entry_views(entries@),
            out@ == old(out)@ + entry_lines(s.subrange(0, i as int)),
        decreases entries@.len() - i,
    {
        assert(s.subrange(0, i + 1).drop_last() =~= s.subrange(0, i as int));
        assert(s.subrange(0, i + 1).last() == s[i as int]);
        assert(s[i as int] == (entries@[i as int].0@, entries@[i as int].1@));
        let ghost start = out@;
        proof {
            reveal_strlit("  ");
            reveal_strlit(": ");
            reveal_strlit("\n");
        }
        out.append("  ");
        out.append(entries[i].0.as_str());
        out.append(": ");
        out.append(entries[i].1.as_str());
        out.append("\n");
        assert(out@ =~= start + seq![' ', ' '] + s[i as int].0 + seq![':', ' '] + s[i as int].1
            + seq!['\n']);
        assert(out@ =~= old(out)@ + entry_lines(s.subrange(0, i + 1)));
        i = i + 1;
    }
    assert(s.subrange(0, i as int) =~= s);
}

impl Config {
    /// The configuration as text, for display.
    pub fn describe(&self) -> (r: String)
        ensures
            r@ == rendered(self@),
    {
        proof {
            reveal_strlit("base: ");
            reveal_strlit("\n");
            reveal_strlit("mapping:\n");
            reveal_strlit("Alias:\n");
        }
        let mut out = String::new();
        out.append("base: ");
        out.append(self.base.as_str());
        out.append("\n");
        out.append("mapping:\n");
        append_lines(&mut out, &self.mapping);
        out.append("Alias:\n");
        append_lines(&mut out, &self.alias);
        assert(out@ =~= rendered(self@));
        out
    }
}

} // verus!
