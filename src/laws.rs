use vstd::prelude::*;

use crate::item::{ItemView, 
    decode_descriptor, first_bad_field, key_dir, key_index, key_path, key_proxy_to, last_field, DescriptorErrorView, FieldView,
};
use crate::outcome::{default_index, OutcomeView};
use crate::rules::{first_match, insert_longest_first, is_longest_first, lemma_first_match, route, sort_longest_first, RulesView};
use crate::source::{decode_entries, directory_rules, ConfigErrorView, EntriesView};
use crate::text::{byte_len, is_prefix};

verus! {

/// Longest prefix wins: a request that some entry of the mapping matches is
/// routed to a matching rule, and no matching entry has a longer prefix than
/// that rule; a request that no entry matches is routed nowhere.
pub proof fn lemma_longest_prefix_wins(mapping: RulesView, path: Seq<char>, query: Seq<char>)
    ensures
        ({
            let rules = sort_longest_first(mapping);
            match first_match(rules, path) {
                Some(i) => {
                    &&& is_prefix(rules[i].0, path)
                    &&& mapping.contains(rules[i])
                    &&& forall|k: int| 0 <= k < mapping.len() && is_prefix(#[trigger] mapping[k].0, path)
                        ==> byte_len(mapping[k].0) <= byte_len(rules[i].0)
                },
                None => {
                    &&& forall|k: int| 0 <= k < mapping.len() ==> !is_prefix(#[trigger] mapping[k].0, path)
                    &&& route(rules, path, query) == OutcomeView::NoMatch
                },
            }
        }),
{
    broadcast use vstd::seq_lib::group_to_multiset_ensures;
    let rules = sort_longest_first(mapping);
    crate::rules::lemma_sort_longest_first(mapping);
    lemma_first_match(rules, path);
    match first_match(rules, path) {
        Some(i) => {
            assert(rules.contains(rules[i]));
            assert(rules.to_multiset().count(rules[i]) > 0);
            assert forall|k: int| 0 <= k < mapping.len() && is_prefix(#[trigger] mapping[k].0, path)
                implies byte_len(mapping[k].0) <= byte_len(rules[i].0) by {
                assert(mapping.contains(mapping[k]));
                assert(mapping.to_multiset().count(mapping[k]) > 0);
                assert(rules.contains(mapping[k]));
                let j = choose|j: int| 0 <= j < rules.len() && rules[j] == mapping[k];
                if j < i {
                    assert(!is_prefix(rules[j].0, path));
                } else if j > i {
                    assert(is_longest_first(rules));
                    assert(byte_len(rules[i].0) >= byte_len(rules[j].0));
                }
            }
        },
        None => {
            assert forall|k: int| 0 <= k < mapping.len() implies !is_prefix(#[trigger] mapping[k].0, path) by {
                assert(mapping.contains(mapping[k]));
                assert(mapping.to_multiset().count(mapping[k]) > 0);
                assert(rules.contains(mapping[k]));
                let j = choose|j: int| 0 <= j < rules.len() && rules[j] == mapping[k];
                assert(!is_prefix(rules[j].0, path));
            }
        },
    }
}

/// A bare directory served at `/` gives exactly one rule, and every request
/// under `/` is served from that directory with `index.html` and listing on.
pub proof fn lemma_directory_collapse(dir: Seq<char>, path: Seq<char>, query: Seq<char>)
    ensures
        sort_longest_first(directory_rules(dir)) == directory_rules(dir),
        route(directory_rules(dir), path, query) == if is_prefix(seq!['/'], path) {
            OutcomeView::FileServe { local_path: dir, index_file: default_index(), allow_listing: true }
        } else {
            OutcomeView::NoMatch
        },
{
    let rules = directory_rules(dir);
    assert(rules.drop_last() =~= Seq::<(Seq<char>, crate::item::ItemView)>::empty());
    assert(sort_longest_first(rules.drop_last()) =~= Seq::<(Seq<char>, crate::item::ItemView)>::empty());
    assert(crate::rules::insert_longest_first(Seq::empty(), rules.last()) =~= rules);
    assert(rules.drop_first() =~= Seq::<(Seq<char>, crate::item::ItemView)>::empty());
    assert(rules.len() == 1);
    assert(rules[0].0 == seq!['/']);
    assert(first_match(rules.drop_first(), path) is None);
    if is_prefix(seq!['/'], path) {
        assert(first_match(rules, path) == Some(0int));
    } else {
        assert(first_match(rules, path) is None);
    }
}

/// Building the rule table twice from the same mapping gives the same rules
/// in the same order.
pub proof fn lemma_build_deterministic(first: RulesView, second: RulesView)
    requires
        first == second,
    ensures
        sort_longest_first(first) == sort_longest_first(second),
        is_longest_first(sort_longest_first(first)),
{
    crate::rules::lemma_sort_longest_first(first);
}

/// The outcomes of a list of requests, each routed on its own.
pub open spec fn route_each(rules: RulesView, requests: Seq<(Seq<char>, Seq<char>)>) -> Seq<OutcomeView> {
    requests.map_values(|q: (Seq<char>, Seq<char>)| route(rules, q.0, q.1))
}

/// Routing reads the rule table and nothing else: requests handled in any
/// order, `order[k]` being the request handled `k`-th, get the outcomes they
/// get when handled one after another in arrival order.
pub proof fn lemma_route_order_independent(
    rules: RulesView,
    requests: Seq<(Seq<char>, Seq<char>)>,
    order: Seq<int>,
    handled: Seq<(Seq<char>, Seq<char>)>,
)
    requires
        order.len() == handled.len(),
        forall|k: int| 0 <= k < order.len() ==> 0 <= #[trigger] order[k] < requests.len() && handled[k] == requests[order[k]],
    ensures
        forall|k: int| 0 <= k < order.len() ==> route_each(rules, handled)[k] == route_each(rules, requests)[#[trigger] order[k]],
{
}

/// Whether an entry's prefix is `n` bytes long.
pub open spec fn prefix_len_is(n: usize) -> spec_fn((Seq<char>, ItemView)) -> bool {
    |e: (Seq<char>, ItemView)| byte_len(e.0) == n
}

proof fn lemma_insert_filter(s: RulesView, e: (Seq<char>, ItemView), n: usize)
    ensures
        insert_longest_first(s, e).filter(prefix_len_is(n)) == if byte_len(e.0) == n {
            s.filter(prefix_len_is(n)).push(e)
        } else {
            s.filter(prefix_len_is(n))
        },
    decreases s.len(),
{
    let p = prefix_len_is(n);
    if s.len() == 0 {
        assert(insert_longest_first(s, e) =~= s.push(e));
        s.lemma_filter_push(e, p);
    } else if byte_len(s.last().0) >= byte_len(e.0) {
        s.lemma_filter_push(e, p);
    } else {
        let t = s.drop_last();
        lemma_insert_filter(t, e, n);
        insert_longest_first(t, e).lemma_filter_push(s.last(), p);
        assert(s =~= t.push(s.last()));
        t.lemma_filter_push(s.last(), p);
    }
}

/// Entries whose prefixes are equally long keep in the rule table the order
/// they had in the mapping.
pub proof fn lemma_ties_keep_mapping_order(mapping: RulesView, n: usize)
    ensures
        sort_longest_first(mapping).filter(prefix_len_is(n)) == mapping.filter(prefix_len_is(n)),
    decreases mapping.len(),
{
    if mapping.len() > 0 {
        let t = mapping.drop_last();
        lemma_ties_keep_mapping_order(t, n);
        lemma_insert_filter(sort_longest_first(t), mapping.last(), n);
        assert(mapping =~= t.push(mapping.last()));
        t.lemma_filter_push(mapping.last(), prefix_len_is(n));
    }
}

/// Whether some field of a descriptor is named `k`.
pub open spec fn has_key(fields: Seq<(Seq<char>, FieldView)>, k: Seq<char>) -> bool {
    exists|i: int| 0 <= i < fields.len() && fields[i].0 == k
}

proof fn lemma_has_key(fields: Seq<(Seq<char>, FieldView)>, k: Seq<char>)
    ensures
        has_key(fields, k) <==> last_field(fields, k) is Some,
    decreases fields.len(),
{
    if fields.len() > 0 {
        let t = fields.drop_last();
        lemma_has_key(t, k);
        if has_key(t, k) {
            let i = choose|i: int| 0 <= i < t.len() && t[i].0 == k;
            assert(fields[i] == t[i]);
        }
        if has_key(fields, k) && fields.last().0 != k {
            let i = choose|i: int| 0 <= i < fields.len() && fields[i].0 == k;
            assert(t[i] == fields[i]);
        }
    }
}

/// A descriptor that names `proxy_to` together with a directory field, or that
/// holds a field fitting neither shape, is refused, and so is every mapping
/// that holds such a descriptor.
pub proof fn lemma_malformed_rejected(fields: Seq<(Seq<char>, FieldView)>, entries: EntriesView, k: int)
    requires
        0 <= k < entries.len(),
        entries[k].1 == Some(fields),
    ensures
        has_key(fields, key_proxy_to()) && (has_key(fields, key_path()) || has_key(fields, key_index()) || has_key(
            fields,
            key_dir(),
        )) ==> decode_descriptor(Some(fields)) is Err,
        (forall|i: int| !first_bad_field(fields, i)) && has_key(fields, key_proxy_to()) && (has_key(fields, key_path())
            || has_key(fields, key_index()) || has_key(fields, key_dir())) ==> decode_descriptor(Some(fields))
            == Err::<crate::item::ItemView, DescriptorErrorView>(DescriptorErrorView::BothShapes),
        (exists|i: int| first_bad_field(fields, i)) ==> decode_descriptor(Some(fields)) is Err,
        decode_descriptor(Some(fields)) is Err ==> decode_entries(entries) is Err,
{
    lemma_has_key(fields, key_proxy_to());
    lemma_has_key(fields, key_path());
    lemma_has_key(fields, key_index());
    lemma_has_key(fields, key_dir());
    if decode_descriptor(Some(fields)) is Err {
        lemma_entry_error(entries, k);
    }
}

proof fn lemma_entry_error(entries: EntriesView, k: int)
    requires
        0 <= k < entries.len(),
        decode_descriptor(entries[k].1) is Err,
    ensures
        decode_entries(entries) is Err,
    decreases entries.len(),
{
    let t = entries.drop_last();
    if k < entries.len() - 1 {
        assert(t[k] == entries[k]);
        lemma_entry_error(t, k);
    }
}

} // verus!
