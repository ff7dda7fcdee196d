use vstd::prelude::*;

verus! {

/// One key/value record read from a single configuration's source.
#[derive(Clone, Debug)]
pub struct AndroidStringsEntry {
    pub key: String,
    pub value: String,
}

/// The key-to-value mapping that a sequence of records defines; a later
/// record for a key overwrites an earlier one.
pub open spec fn stream_map(s: Seq<AndroidStringsEntry>) -> Map<Seq<char>, Seq<char>>
    decreases s.len(),
{
    if s.len() == 0 {
        Map::empty()
    } else {
        stream_map(s.drop_last()).insert(s.last().key@, s.last().value@)
    }
}

/// No two records of the sequence share a key.
pub open spec fn distinct_keys(s: Seq<AndroidStringsEntry>) -> bool {
    forall|i: int, j: int| 0 <= i < j < s.len() ==> s[i].key@ != s[j].key@
}

/// A key is in the mapping exactly when some record carries it.
pub proof fn lemma_stream_map_contains(s: Seq<AndroidStringsEntry>, k: Seq<char>)
    ensures
        stream_map(s).contains_key(k) <==> exists|j: int| 0 <= j < s.len() && s[j].key@ == k,
    decreases s.len(),
{
    if s.len() > 0 {
        lemma_stream_map_contains(s.drop_last(), k);
        if stream_map(s).contains_key(k) {
            if s.last().key@ == k {
                assert(s[s.len() - 1].key@ == k);
            } else {
                let j = choose|j: int| 0 <= j < s.len() - 1 && s.drop_last()[j].key@ == k;
                assert(s[j].key@ == k);
            }
        }
        if exists|j: int| 0 <= j < s.len() && s[j].key@ == k {
            let j = choose|j: int| 0 <= j < s.len() && s[j].key@ == k;
            if j < s.len() - 1 {
                assert(s.drop_last()[j].key@ == k);
            }
        }
    }
}

/// Under distinct keys, the mapping sends a record's key to that record's value.
pub proof fn lemma_stream_map_value(s: Seq<AndroidStringsEntry>, j: int)
    requires
        distinct_keys(s),
        0 <= j < s.len(),
    ensures
        stream_map(s).contains_key(s[j].key@),
        stream_map(s)[s[j].key@] == s[j].value@,
    decreases s.len(),
{
    lemma_stream_map_contains(s, s[j].key@);
    if j < s.len() - 1 {
        assert(distinct_keys(s.drop_last()));
        lemma_stream_map_value(s.drop_last(), j);
        assert(s[j].key@ != s.last().key@);
    }
}

/// Extending a record sequence inserts the new pair into its mapping.
pub proof fn lemma_stream_map_push(s: Seq<AndroidStringsEntry>, e: AndroidStringsEntry)
    ensures
        stream_map(s.push(e)) == stream_map(s).insert(e.key@, e.value@),
{
    assert(s.push(e).drop_last() =~= s);
    assert(s.push(e).last() == e);
}

/// Copies a list of configuration names.
pub fn clone_names(v: &Vec<String>) -> (r: Vec<String>)
    ensures
        r.deep_view() == v.deep_view(),
        r@.len() == v@.len(),
        forall|j: int| 0 <= j < v@.len() ==> (#[trigger] r@[j])@ == v@[j]@,
{
    let mut r: Vec<String> = Vec::new();
    let mut i: usize = 0;
    while i < v.len()
        invariant
            i <= v.len(),
            r@.len() == i,
            forall|j: int| 0 <= j < i ==> r@[j]@ == v@[j]@,
        decreases v.len() - i,
    {
        r.push(v[i].clone());
        i = i + 1;
    }
    proof {
        assert forall|j: int| 0 <= j < v@.len() implies r.deep_view()[j] == v.deep_view()[j] by {
            assert(r.deep_view()[j] == r@[j]@);
            assert(v.deep_view()[j] == v@[j]@);
        }
        assert(r.deep_view() =~= v.deep_view());
    }
    r
}

/// The abstract content of one data-quality diagnostic.
pub enum WarningModel {
    EmptyValues { key: Seq<char>, configurations: Seq<Seq<char>>, all_empty: bool },
    InvalidKeyName { key: Seq<char>, configurations: Seq<Seq<char>> },
    DuplicatedKey { key: Seq<char>, configuration: Seq<char> },
}

/// Characters allowed in a key name: ASCII alphanumeric or underscore.
pub open spec fn valid_key_char(c: char) -> bool {
    ('a' <= c && c <= 'z') || ('A' <= c && c <= 'Z') || ('0' <= c && c <= '9') || c == '_'
}

/// A key name is valid when every character of it is allowed.
pub open spec fn valid_key(s: Seq<char>) -> bool {
    forall|i: int| 0 <= i < s.len() ==> valid_key_char(s[i])
}

/// A sink for completed rows: its abstract state is the sequence of rows
/// appended so far, each a key, the column values, and the quote flag.
pub trait OutputConsumer {
    spec fn rows(&self) -> Seq<(Seq<char>, Seq<Seq<char>>, bool)>;

    fn append(&mut self, key: &String, items: &Vec<String>, quotes: bool)
        ensures
            final(self).rows() == old(self).rows().push((key@, items.deep_view(), quotes)),
    ;
}

/// Accumulates data-quality diagnostics. Empty-value signals are buffered per
/// drained row and flushed into one consolidated report; key-name and
/// duplicate-key signals report immediately.
pub trait WarningsCollector {
    spec fn configurations_count(&self) -> nat;

    spec fn pending_empty(&self) -> Seq<Seq<char>>;

    spec fn reports(&self) -> Seq<WarningModel>;

    fn remember_empty_value(&mut self, configuration: &String)
        ensures
            final(self).configurations_count() == old(self).configurations_count(),
            final(self).pending_empty() == old(self).pending_empty().push(configuration@),
            final(self).reports() == old(self).reports(),
    ;

    fn handle_empty_values(&mut self, key: &String)
        ensures
            final(self).configurations_count() == old(self).configurations_count(),
            final(self).pending_empty() == Seq::<Seq<char>>::empty(),
            final(self).reports() == if old(self).pending_empty().len() == 0 {
                old(self).reports()
            } else {
                old(self).reports().push((WarningModel::EmptyValues {
                    key: key@,
                    configurations: old(self).pending_empty(),
                    all_empty: old(self).pending_empty().len()
                        == old(self).configurations_count(),
                }))
            },
    ;

    fn check_key_name(&mut self, key: &String, configurations: &Vec<String>)
        ensures
            final(self).configurations_count() == old(self).configurations_count(),
            final(self).pending_empty() == old(self).pending_empty(),
            final(self).reports() == if valid_key(key@) {
                old(self).reports()
            } else {
                old(self).reports().push((WarningModel::InvalidKeyName {
                    key: key@,
                    configurations: configurations.deep_view(),
                }))
            },
    ;

    fn duplicated_key(&mut self, key: &String, configuration: &String)
        ensures
            final(self).configurations_count() == old(self).configurations_count(),
            final(self).pending_empty() == old(self).pending_empty(),
            final(self).reports() == old(self).reports().push((WarningModel::DuplicatedKey {
                key: key@,
                configuration: configuration@,
            })),
    ;
}

/// A key of a prefix's mapping is a key of the whole sequence's mapping.
pub proof fn lemma_stream_map_prefix_contains(s: Seq<AndroidStringsEntry>, m: int, k: Seq<char>)
    requires
        0 <= m <= s.len(),
        stream_map(s.subrange(0, m)).contains_key(k),
    ensures
        stream_map(s).contains_key(k),
{
    lemma_stream_map_contains(s.subrange(0, m), k);
    lemma_stream_map_contains(s, k);
    let j = choose|j: int| 0 <= j < m && s.subrange(0, m)[j].key@ == k;
    assert(s[j].key@ == k);
}

/// Under distinct keys, a value already fixed by a prefix never changes.
pub proof fn lemma_stream_map_prefix_value(s: Seq<AndroidStringsEntry>, m: int, k: Seq<char>)
    requires
        distinct_keys(s),
        0 <= m <= s.len(),
        stream_map(s.subrange(0, m)).contains_key(k),
    ensures
        stream_map(s).contains_key(k),
        stream_map(s)[k] == stream_map(s.subrange(0, m))[k],
{
    let p = s.subrange(0, m);
    lemma_stream_map_contains(p, k);
    let j = choose|j: int| 0 <= j < m && p[j].key@ == k;
    assert(s[j].key@ == k);
    assert(distinct_keys(p));
    lemma_stream_map_value(p, j);
    lemma_stream_map_value(s, j);
}

/// Arrival order does not matter to a source's mapping: a reordering of
/// records with pairwise-distinct keys defines the same key-to-value mapping
/// and keeps its keys pairwise distinct.
pub proof fn lemma_stream_map_permutation(
    s1: Seq<AndroidStringsEntry>,
    s2: Seq<AndroidStringsEntry>,
)
    requires
        distinct_keys(s1),
        s1.to_multiset() == s2.to_multiset(),
    ensures
        distinct_keys(s2),
        stream_map(s2) == stream_map(s1),
{
    broadcast use vstd::seq_lib::group_to_multiset_ensures;

    assert(s1.no_duplicates()) by {
        assert forall|i: int, j: int| 0 <= i < j < s1.len() implies s1[i] != s1[j] by {
            assert(s1[i].key@ != s1[j].key@);
        }
    }
    s1.lemma_multiset_has_no_duplicates();
    assert forall|i: int, j: int| 0 <= i < j < s2.len() implies s2[i].key@ != s2[j].key@ by {
        if s2[i].key@ == s2[j].key@ {
            let e = s2[i];
            if s2[i] == s2[j] {
                assert(s2.remove(i).to_multiset() == s2.to_multiset().remove(e));
                assert(s2.remove(i)[j - 1] == s2[j]);
                assert(s2.remove(i).contains(e));
                assert(s2.remove(i).to_multiset().count(e) > 0);
                assert(s2.to_multiset().count(e) >= 2);
                assert(s1.to_multiset().count(e) >= 2);
                assert(s1.to_multiset().count(e) > 0);
                assert(s1.contains(e));
                assert(false);
            } else {
                assert(s2.contains(s2[i]));
                assert(s2.to_multiset().count(s2[i]) > 0);
                assert(s1.to_multiset().count(s2[i]) > 0);
                assert(s1.contains(s2[i]));
                assert(s2.contains(s2[j]));
                assert(s2.to_multiset().count(s2[j]) > 0);
                assert(s1.to_multiset().count(s2[j]) > 0);
                assert(s1.contains(s2[j]));
                let a = choose|a: int| 0 <= a < s1.len() && s1[a] == s2[i];
                let b = choose|b: int| 0 <= b < s1.len() && s1[b] == s2[j];
                assert(a != b);
                assert(s1[a].key@ != s1[b].key@);
                assert(false);
            }
        }
    }
    assert forall|k: Seq<char>| #[trigger] stream_map(s1).dom().contains(k) implies stream_map(
        s2,
    ).dom().contains(k) && stream_map(s2)[k] == stream_map(s1)[k] by {
        assert(stream_map(s1).contains_key(k));
        lemma_stream_map_contains(s1, k);
        let j = choose|j: int| 0 <= j < s1.len() && s1[j].key@ == k;
        let e = s1[j];
        assert(s1.contains(e));
        assert(s1.to_multiset().count(e) > 0);
        assert(s2.to_multiset().count(e) > 0);
        assert(s2.contains(e));
        let j2 = choose|j2: int| 0 <= j2 < s2.len() && s2[j2] == e;
        lemma_stream_map_value(s1, j);
        lemma_stream_map_value(s2, j2);
    }
    assert forall|k: Seq<char>| #[trigger] stream_map(s2).dom().contains(k) implies stream_map(
        s1,
    ).dom().contains(k) by {
        assert(stream_map(s2).contains_key(k));
        lemma_stream_map_contains(s2, k);
        let j = choose|j: int| 0 <= j < s2.len() && s2[j].key@ == k;
        let e = s2[j];
        assert(s2.contains(e));
        assert(s2.to_multiset().count(e) > 0);
        assert(s1.to_multiset().count(e) > 0);
        assert(s1.contains(e));
        let j2 = choose|j2: int| 0 <= j2 < s1.len() && s1[j2] == e;
        lemma_stream_map_contains(s1, k);
    }
    assert(stream_map(s2).dom() =~= stream_map(s1).dom());
    assert(stream_map(s2) =~= stream_map(s1));
}

} // verus!
