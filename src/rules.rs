use vstd::prelude::*;
use vstd::string::*;

use crate::item::{ConfigItem, ItemView};
use crate::outcome::{outcome_of, DispatchOutcome, OutcomeView};
use crate::text::{byte_len, is_prefix, starts_with, text_byte_len};

verus! {

/// The mapping from URL prefix to item, in the order the configuration gave it.
pub struct ConfigFile {
    pub map: Vec<(String, ConfigItem)>,
}

/// The rule table: the mapping's entries, longest prefix (in bytes) first.
pub struct Config {
    items: Vec<(String, ConfigItem)>,
}

pub type RulesView = Seq<(Seq<char>, ItemView)>;

pub open spec fn entries_view(s: Seq<(String, ConfigItem)>) -> RulesView {
    s.map_values(|e: (String, ConfigItem)| (e.0@, e.1@))
}

impl View for ConfigFile {
    type V = RulesView;

    open spec fn view(&self) -> RulesView {
        entries_view(self.map@)
    }
}

impl View for Config {
    type V = RulesView;

    closed spec fn view(&self) -> RulesView {
        entries_view(self.items@)
    }
}

/// Every prefix is non-empty and no two entries name the same prefix.
pub open spec fn prefixes_well_formed(rules: RulesView) -> bool {
    &&& forall|i: int| 0 <= i < rules.len() ==> (#[trigger] rules[i]).0.len() > 0
    &&& forall|i: int, j: int| 0 <= i < j < rules.len() ==> (#[trigger] rules[i]).0 != (#[trigger] rules[j]).0
}

proof fn lemma_same_entries_well_formed(s: RulesView, r: RulesView)
    requires
        prefixes_well_formed(s),
        r.to_multiset() == s.to_multiset(),
    ensures
        prefixes_well_formed(r),
{
    broadcast use vstd::seq_lib::group_to_multiset_ensures;
    assert forall|i: int| 0 <= i < r.len() implies (#[trigger] r[i]).0.len() > 0 by {
        assert(r.contains(r[i]));
        assert(r.to_multiset().count(r[i]) > 0);
        assert(s.contains(r[i]));
    }
    assert forall|i: int, j: int| 0 <= i < j < r.len() implies (#[trigger] r[i]).0 != (#[trigger] r[j]).0 by {
        if r[i].0 == r[j].0 {
            assert(r.contains(r[i]) && r.contains(r[j]));
            assert(r.to_multiset().count(r[i]) > 0 && r.to_multiset().count(r[j]) > 0);
            let a = choose|a: int| 0 <= a < s.len() && s[a] == r[i];
            let b = choose|b: int| 0 <= b < s.len() && s[b] == r[j];
            if r[i] == r[j] {
                let rr = r.remove(j);
                assert(rr[i] == r[i]);
                assert(rr.contains(r[i]));
                assert(rr.to_multiset().count(r[i]) > 0);
                assert(r.to_multiset().count(r[i]) >= 2);
                let ss = s.remove(a);
                assert(ss.to_multiset().count(r[i]) > 0);
                assert(ss.contains(r[i]));
                let c = choose|c: int| 0 <= c < ss.len() && ss[c] == r[i];
                if c < a {
                    assert(s[c] == ss[c]);
                } else {
                    assert(s[c + 1] == ss[c]);
                }
            } else {
                assert(a != b);
                if a > b {
                    assert(s[b].0 != s[a].0);
                }
            }
        }
    }
}

/// Puts `e` after every entry whose prefix is at least as long, searching from the end.
pub open spec fn insert_longest_first(s: RulesView, e: (Seq<char>, ItemView)) -> RulesView
    decreases s.len(),
{
    if s.len() == 0 {
        seq![e]
    } else if byte_len(s.last().0) >= byte_len(e.0) {
        s.push(e)
    } else {
        insert_longest_first(s.drop_last(), e).push(s.last())
    }
}

/// The entries sorted by descending prefix length; entries of equal length keep their order.
pub open spec fn sort_longest_first(s: RulesView) -> RulesView
    decreases s.len(),
{
    if s.len() == 0 {
        s
    } else {
        insert_longest_first(sort_longest_first(s.drop_last()), s.last())
    }
}

/// No entry has a longer prefix than one before it.
pub open spec fn is_longest_first(s: RulesView) -> bool {
    forall|i: int, j: int| 0 <= i < j < s.len() ==> byte_len(#[trigger] s[i].0) >= byte_len(#[trigger] s[j].0)
}

proof fn lemma_insert_split(s: RulesView, e: (Seq<char>, ItemView), j: int)
    requires
        0 < j <= s.len(),
        byte_len(s[j - 1].0) < byte_len(e.0),
    ensures
        insert_longest_first(s.take(j), e) == insert_longest_first(s.take(j - 1), e).push(s[j - 1]),
{
    assert(s.take(j).drop_last() =~= s.take(j - 1));
}

proof fn lemma_insert_keeps_order(s: RulesView, e: (Seq<char>, ItemView))
    requires
        is_longest_first(s),
    ensures
        is_longest_first(insert_longest_first(s, e)),
        insert_longest_first(s, e).len() == s.len() + 1,
        insert_longest_first(s, e).to_multiset() == s.to_multiset().insert(e),
        forall|i: int| 0 <= i < insert_longest_first(s, e).len() ==>
            byte_len(#[trigger] insert_longest_first(s, e)[i].0) >= byte_len(e.0)
            || (i < s.len() && insert_longest_first(s, e)[i] == s[i])
            || (0 < i && insert_longest_first(s, e)[i] == s[i - 1]),
    decreases s.len(),
{
    broadcast use vstd::seq_lib::group_to_multiset_ensures;
    let r = insert_longest_first(s, e);
    if s.len() == 0 {
        assert(s.to_multiset() =~= vstd::multiset::Multiset::empty());
        assert(r =~= seq![e]);
    } else if byte_len(s.last().0) >= byte_len(e.0) {
    } else {
        let t = s.drop_last();
        assert(is_longest_first(t));
        lemma_insert_keeps_order(t, e);
        let q = insert_longest_first(t, e);
        assert(s =~= t.push(s.last()));
        assert forall|i: int, j: int| 0 <= i < j < r.len() implies byte_len(#[trigger] r[i].0) >= byte_len(#[trigger] r[j].0) by {
            if j == r.len() - 1 {
                assert(r[j] == s.last());
                assert(q[i] == r[i]);
                if byte_len(q[i].0) >= byte_len(e.0) {
                } else if i < t.len() && q[i] == t[i] {
                    assert(s[i] == t[i]);
                } else {
                    assert(s[i - 1] == t[i - 1]);
                }
            }
        }
    }
}

pub(crate) proof fn lemma_sort_longest_first(s: RulesView)
    ensures
        is_longest_first(sort_longest_first(s)),
        sort_longest_first(s).to_multiset() == s.to_multiset(),
    decreases s.len(),
{
    broadcast use vstd::seq_lib::group_to_multiset_ensures;
    if s.len() > 0 {
        lemma_sort_longest_first(s.drop_last());
        lemma_insert_keeps_order(sort_longest_first(s.drop_last()), s.last());
        assert(s =~= s.drop_last().push(s.last()));
    }
}

/// The index of the first entry whose prefix starts `path`, if any.
pub open spec fn first_match(rules: RulesView, path: Seq<char>) -> Option<int>
    decreases rules.len(),
{
    if rules.len() == 0 {
        None
    } else if is_prefix(rules[0].0, path) {
        Some(0)
    } else {
        match first_match(rules.drop_first(), path) {
            Some(i) => Some(i + 1),
            None => None,
        }
    }
}

/// What a request on `path` with `query` comes to under `rules`.
pub open spec fn route(rules: RulesView, path: Seq<char>, query: Seq<char>) -> OutcomeView {
    match first_match(rules, path) {
        Some(i) => outcome_of(rules[i].0, rules[i].1, path, query),
        None => OutcomeView::NoMatch,
    }
}

/// `first_match` finds the first matching entry, and nothing where none matches.
pub proof fn lemma_first_match(rules: RulesView, path: Seq<char>)
    ensures
        first_match(rules, path) matches Some(i) ==> {
            &&& 0 <= i < rules.len()
            &&& is_prefix(rules[i].0, path)
            &&& forall|j: int| 0 <= j < i ==> !is_prefix(#[trigger] rules[j].0, path)
        },
        first_match(rules, path) is None ==> forall|j: int| 0 <= j < rules.len() ==> !is_prefix(#[trigger] rules[j].0, path),
    decreases rules.len(),
{
    if rules.len() > 0 && !is_prefix(rules[0].0, path) {
        let t = rules.drop_first();
        lemma_first_match(t, path);
        assert forall|j: int| 1 <= j < rules.len() implies rules[j] == t[j - 1] by {}
        if let Some(i) = first_match(t, path) {
            assert forall|j: int| 0 <= j < i + 1 implies !is_prefix(#[trigger] rules[j].0, path) by {
                if j > 0 {
                    assert(rules[j] == t[j - 1]);
                }
            }
        } else {
            assert forall|j: int| 0 <= j < rules.len() implies !is_prefix(#[trigger] rules[j].0, path) by {
                if j > 0 {
                    assert(rules[j] == t[j - 1]);
                }
            }
        }
    }
}

proof fn lemma_first_match_at(rules: RulesView, path: Seq<char>, i: int)
    requires
        0 <= i < rules.len(),
        is_prefix(rules[i].0, path),
        forall|j: int| 0 <= j < i ==> !is_prefix(#[trigger] rules[j].0, path),
    ensures
        first_match(rules, path) == Some(i),
{
    lemma_first_match(rules, path);
    if let Some(k) = first_match(rules, path) {
        if k < i {
            assert(!is_prefix(rules[k].0, path));
        } else if k > i {
            assert(!is_prefix(rules[i].0, path));
        }
    }
}

impl Config {
    #[verifier::type_invariant]
    spec fn longest_first(&self) -> bool {
        &&& is_longest_first(entries_view(self.items@))
        &&& prefixes_well_formed(entries_view(self.items@))
    }

    /// The rules: longest prefix first, every prefix non-empty and named once.
    pub fn items(&self) -> (r: &Vec<(String, ConfigItem)>)
        ensures
            entries_view(r@) == self@,
            is_longest_first(self@),
            prefixes_well_formed(self@),
    {
        proof {
            use_type_invariant(self);
        }
        &self.items
    }

    /// The first rule, longest prefix first, whose prefix starts `input`.
    pub fn get(&self, input: &String) -> (r: Option<(&String, &ConfigItem)>)
        ensures
            r is None <==> first_match(self@, input@) is None,
            r matches Some(found) ==> {
                let i = first_match(self@, input@)->0;
                found.0@ == self@[i].0 && found.1@ == self@[i].1
            },
    {
        let mut i: usize = 0;
        while i < self.items.len()
            invariant
                i <= self.items@.len(),
                forall|j: int| 0 <= j < i ==> !is_prefix(#[trigger] self@[j].0, input@),
            decreases self.items.len() - i,
        {
            let entry = &self.items[i];
            assert(self@[i as int] == (entry.0@, entry.1@));
            if starts_with(input.as_str(), entry.0.as_str()) {
                proof {
                    lemma_first_match_at(self@, input@, i as int);
                }
                return Some((&entry.0, &entry.1));
            }
            i = i + 1;
        }
        proof {
            lemma_first_match(self@, input@);
            if let Some(k) = first_match(self@, input@) {
                assert(is_prefix(self@[k].0, input@));
            }
        }
        None
    }

    /// What a request on `path` with `query` comes to: the outcome of the
    /// first rule whose prefix starts the path, or `NoMatch`.
    pub fn dispatch(&self, path: &str, query: &str) -> (r: DispatchOutcome)
        ensures
            r@ == route(self@, path@, query@),
    {
        let input = String::from_str(path);
        match self.get(&input) {
            Some((prefix, item)) => {
                proof {
                    lemma_first_match(self@, path@);
                }
                item.outcome(prefix, path, query)
            },
            None => DispatchOutcome::NoMatch,
        }
    }

    /// The rule table of a mapping: its entries sorted by descending prefix
    /// length in bytes, entries of equal length in the mapping's order.
    pub fn from_config_file(config_file: ConfigFile) -> (r: Config)
        requires
            prefixes_well_formed(config_file@),
        ensures
            r@ == sort_longest_first(config_file@),
            is_longest_first(r@),
            r@.to_multiset() == config_file@.to_multiset(),
    {
        let ghost src = config_file@;
        let mut rest = config_file.map;
        let total = rest.len();
        assert(src.len() == total);
        let mut items: Vec<(String, ConfigItem)> = Vec::new();
        let mut k: usize = 0;
        while rest.len() > 0
            invariant
                k + rest@.len() == src.len(),
                src.len() <= usize::MAX,
                entries_view(rest@) == src.skip(k as int),
                entries_view(items@) == sort_longest_first(src.take(k as int)),
            decreases rest@.len(),
        {
            let ghost before = entries_view(items@);
            let ghost old_rest = rest@;
            let e = rest.remove(0);
            let ghost ev = (e.0@, e.1@);
            assert(entries_view(old_rest)[0] == ev);
            assert(src.skip(k as int)[0] == src[k as int]);
            assert(ev == src[k as int]);
            assert(entries_view(rest@) =~= entries_view(old_rest).skip(1));
            assert(entries_view(rest@) =~= src.skip(k + 1));
            let n = text_byte_len(e.0.as_str());
            let mut j: usize = items.len();
            assert(before.take(j as int) =~= before);
            assert(before.skip(j as int) =~= Seq::<(Seq<char>, ItemView)>::empty());
            assert(insert_longest_first(before, ev) + before.skip(j as int) =~= insert_longest_first(before, ev));
            while j > 0 && text_byte_len(items[j - 1].0.as_str()) < n
                invariant
                    j <= items@.len(),
                    before == entries_view(items@),
                    n == byte_len(ev.0),
                    insert_longest_first(before, ev) == insert_longest_first(before.take(j as int), ev) + before.skip(j as int),
                decreases j,
            {
                proof {
                    lemma_insert_split(before, ev, j as int);
                    assert(before.skip(j - 1) =~= seq![before[j - 1]] + before.skip(j as int));
                    assert(insert_longest_first(before.take(j - 1), ev).push(before[j - 1]) + before.skip(j as int)
                        =~= insert_longest_first(before.take(j - 1), ev) + before.skip(j - 1));
                }
                j = j - 1;
            }
            proof {
                if j > 0 {
                    assert(before.take(j as int).drop_last() =~= before.take(j - 1));
                    assert(insert_longest_first(before.take(j as int), ev) == before.take(j as int).push(ev));
                } else {
                    assert(insert_longest_first(before.take(0), ev) =~= seq![ev]);
                }
            }
            items.insert(j, e);
            assert(entries_view(items@) =~= before.take(j as int).push(ev) + before.skip(j as int));
            assert(src.take(k + 1).drop_last() =~= src.take(k as int));
            k = k + 1;
        }
        assert(src.take(k as int) =~= src);
        proof {
            lemma_sort_longest_first(src);
            lemma_same_entries_well_formed(src, sort_longest_first(src));
        }
        Config { items }
    }
}

} // verus!
