use vstd::prelude::*;

use crate::models::{distinct_keys, lemma_stream_map_contains, lemma_stream_map_prefix_contains, lemma_stream_map_prefix_value, lemma_stream_map_push, stream_map, valid_key, AndroidStringsEntry, OutputConsumer, WarningModel, WarningsCollector};
use crate::pool::{PendingRow, StringsPool};
use crate::reader::StreamProducer;

verus! {

broadcast use vstd::prelude::Seq::lemma_filter_push;

/// The column values of a complete row, in configuration order.
pub open spec fn unwrap_values(vals: Seq<Option<String>>) -> Seq<Seq<char>> {
    Seq::new(vals.len(), |i: int| (vals[i]->Some_0)@)
}

/// The output row that a complete pending row becomes.
pub open spec fn row_model(r: PendingRow) -> (Seq<char>, Seq<Seq<char>>, bool) {
    (r.key@, unwrap_values(r.values@), true)
}

pub open spec fn complete_rows(p: Seq<PendingRow>) -> Seq<PendingRow> {
    p.filter(|r: PendingRow| r.complete())
}

pub open spec fn incomplete_rows(p: Seq<PendingRow>) -> Seq<PendingRow> {
    p.filter(|r: PendingRow| !r.complete())
}

/// The rows a drain pass emits: the complete rows, in first-sighting order.
pub open spec fn emitted_models(p: Seq<PendingRow>) -> Seq<(Seq<char>, Seq<Seq<char>>, bool)> {
    complete_rows(p).map_values(|r: PendingRow| row_model(r))
}

/// The names of the first `i` configurations whose value for the row is the
/// empty string, in configuration order.
pub open spec fn empty_cfgs_upto(cfgs: Seq<Seq<char>>, vals: Seq<Option<String>>, i: int) -> Seq<
    Seq<char>,
>
    decreases i,
{
    if i <= 0 {
        Seq::empty()
    } else {
        empty_cfgs_upto(cfgs, vals, i - 1) + (if (vals[i - 1]->Some_0)@.len() == 0 {
            seq![cfgs[i - 1]]
        } else {
            Seq::<Seq<char>>::empty()
        })
    }
}

/// The diagnostics that draining one complete row records: a consolidated
/// empty-value report when some value is empty, then a key-name report when
/// the key holds a character outside the allowed set.
pub open spec fn row_reports(cfgs: Seq<Seq<char>>, r: PendingRow) -> Seq<WarningModel> {
    let empties = empty_cfgs_upto(cfgs, r.values@, cfgs.len() as int);
    (if empties.len() > 0 {
        seq![
            (WarningModel::EmptyValues {
                key: r.key@,
                configurations: empties,
                all_empty: empties.len() == cfgs.len(),
            }),
        ]
    } else {
        Seq::<WarningModel>::empty()
    }) + (if valid_key(r.key@) {
        Seq::<WarningModel>::empty()
    } else {
        seq![(WarningModel::InvalidKeyName { key: r.key@, configurations: cfgs })]
    })
}

/// All diagnostics that one drain pass over the pending rows records.
pub open spec fn drain_reports(cfgs: Seq<Seq<char>>, p: Seq<PendingRow>) -> Seq<WarningModel>
    decreases p.len(),
{
    if p.len() == 0 {
        Seq::empty()
    } else {
        drain_reports(cfgs, p.drop_last()) + (if p.last().complete() {
            row_reports(cfgs, p.last())
        } else {
            Seq::<WarningModel>::empty()
        })
    }
}

/// Decides whether every configuration has contributed to the row.
fn row_is_complete(row: &PendingRow) -> (r: bool)
    ensures
        r == row.complete(),
{
    let mut j: usize = 0;
    while j < row.values.len()
        invariant
            j <= row.values@.len(),
            forall|i: int| 0 <= i < j ==> row.values@[i] is Some,
        decreases row.values@.len() - j,
    {
        if row.values[j].is_none() {
            return false;
        }
        j = j + 1;
    }
    true
}

/// Drains every pending row that now has a value from every configuration of
/// the original set: emits it with quoting enabled, records its diagnostics,
/// and evicts it at once; incomplete rows stay, in order.
pub fn save_fully_defined_entries<O: OutputConsumer, W: WarningsCollector>(
    pool: &mut StringsPool,
    output: &mut O,
    warnings: &mut W,
)
    requires
        old(pool).wf(),
        old(warnings).configurations_count() == old(pool).configurations@.len(),
        old(warnings).pending_empty().len() == 0,
    ensures
        final(pool).wf(),
        final(pool).configurations == old(pool).configurations,
        final(pool).active == old(pool).active,
        final(pool).pending@ == incomplete_rows(old(pool).pending@),
        final(output).rows() == old(output).rows() + emitted_models(old(pool).pending@),
        final(warnings).reports() == old(warnings).reports() + drain_reports(
            old(pool).configurations.deep_view(),
            old(pool).pending@,
        ),
        final(warnings).pending_empty().len() == 0,
        final(warnings).configurations_count() == old(warnings).configurations_count(),
{
    let ghost all = old(pool).pending@;
    let ghost cfgs = old(pool).configurations.deep_view();
    let ghost out0 = old(output).rows();
    let ghost w0 = old(warnings).reports();
    let n = pool.configurations.len();
    let mut work: Vec<PendingRow> = Vec::new();
    std::mem::swap(&mut work, &mut pool.pending);
    let ghost mut i: int = 0;
    proof {
        assert(all.subrange(0, 0) =~= Seq::<PendingRow>::empty());
        assert(complete_rows(Seq::<PendingRow>::empty()) =~= Seq::<PendingRow>::empty());
        assert(incomplete_rows(Seq::<PendingRow>::empty()) =~= Seq::<PendingRow>::empty());
        assert(emitted_models(all.subrange(0, 0)) =~= Seq::<
            (Seq<char>, Seq<Seq<char>>, bool),
        >::empty());
        assert(out0 + emitted_models(all.subrange(0, 0)) =~= out0);
        assert(w0 + drain_reports(cfgs, all.subrange(0, 0)) =~= w0);
    }
    while work.len() > 0
        invariant
            old(pool).wf(),
            all == old(pool).pending@,
            cfgs == old(pool).configurations.deep_view(),
            n == old(pool).configurations@.len(),
            0 <= i <= all.len(),
            pool.wf(),
            forall|r: int|
                0 <= r < pool.pending@.len() ==> exists|j: int|
                    0 <= j < i && (#[trigger] pool.pending@[r]) == all[j],
            work@ =~= all.subrange(i, all.len() as int),
            pool.configurations == old(pool).configurations,
            pool.active == old(pool).active,
            pool.pending@ == incomplete_rows(all.subrange(0, i)),
            output.rows() == out0 + emitted_models(all.subrange(0, i)),
            warnings.reports() == w0 + drain_reports(cfgs, all.subrange(0, i)),
            warnings.pending_empty().len() == 0,
            warnings.configurations_count() == n as nat,
        decreases work@.len(),
    {
        let row = work.remove(0);
        proof {
            assert(row == all[i]);
            assert(all.subrange(i, all.len() as int).subrange(
                1,
                all.len() - i,
            ) =~= all.subrange(i + 1, all.len() as int));
            assert(row.values@.len() == n);
        }
        let complete = row_is_complete(&row);
        proof {
            assert(all.subrange(0, i + 1) =~= all.subrange(0, i).push(row));
        }
        if complete {
            let ghost wmid = warnings.reports();
            let mut items: Vec<String> = Vec::new();
            let mut j: usize = 0;
            while j < n
                invariant
                    j <= n,
                    row.complete(),
                    n == row.values@.len(),
                    n == pool.configurations@.len(),
                    cfgs == pool.configurations.deep_view(),
                    items@.len() == j,
                    forall|j2: int| 0 <= j2 < j ==> items@[j2]@ == (row.values@[j2]->Some_0)@,
                    warnings.pending_empty() == empty_cfgs_upto(cfgs, row.values@, j as int),
                    warnings.reports() == wmid,
                    warnings.configurations_count() == n as nat,
                decreases n - j,
            {
                match &row.values[j] {
                    Some(v) => {
                        if v.as_str().is_empty() {
                            warnings.remember_empty_value(&pool.configurations[j]);
                            proof {
                                assert(warnings.pending_empty() =~= empty_cfgs_upto(
                                    cfgs,
                                    row.values@,
                                    j + 1,
                                ));
                            }
                        } else {
                            proof {
                                assert(warnings.pending_empty() =~= empty_cfgs_upto(
                                    cfgs,
                                    row.values@,
                                    j + 1,
                                ));
                            }
                        }
                        items.push(v.clone());
                    },
                    None => {
                        proof {
                            assert(false);
                        }
                    },
                }
                j = j + 1;
            }
            output.append(&row.key, &items, true);
            warnings.handle_empty_values(&row.key);
            warnings.check_key_name(&row.key, &pool.configurations);
            proof {
                assert(items.deep_view() =~= unwrap_values(row.values@));
                assert(output.rows() =~= out0 + emitted_models(all.subrange(0, i + 1))) by {
                    assert(complete_rows(all.subrange(0, i).push(row))
                        == complete_rows(all.subrange(0, i)).push(row));
                    assert(emitted_models(all.subrange(0, i + 1)) =~= emitted_models(
                        all.subrange(0, i),
                    ).push(row_model(row)));
                }
                assert(pool.pending@ == incomplete_rows(all.subrange(0, i + 1))) by {
                    assert(incomplete_rows(all.subrange(0, i).push(row))
                        == incomplete_rows(all.subrange(0, i)));
                }
                assert(warnings.reports() =~= w0 + drain_reports(cfgs, all.subrange(0, i + 1)))
                    by {
                    assert(all.subrange(0, i + 1).drop_last() =~= all.subrange(0, i));
                    assert(all.subrange(0, i + 1).last() == row);
                    assert(drain_reports(cfgs, all.subrange(0, i + 1)) == drain_reports(
                        cfgs,
                        all.subrange(0, i),
                    ) + row_reports(cfgs, row));
                    assert(warnings.reports() =~= wmid + row_reports(cfgs, row));
                    assert(wmid == w0 + drain_reports(cfgs, all.subrange(0, i)));
                }
            }
        } else {
            let ghost kept0 = pool.pending@;
            pool.pending.push(row);
            proof {
                assert forall|r2: int|
                    0 <= r2 < pool.pending@.len() implies exists|j: int|
                    0 <= j < i + 1 && (#[trigger] pool.pending@[r2]) == all[j] by {
                    if r2 == pool.pending@.len() - 1 {
                        assert(pool.pending@[r2] == all[i]);
                    } else {
                        assert(pool.pending@[r2] == kept0[r2]);
                        let j = choose|j: int| 0 <= j < i && kept0[r2] == all[j];
                        assert(pool.pending@[r2] == all[j]);
                    }
                }
                assert forall|r2: int|
                    0 <= r2 < pool.pending@.len() implies (#[trigger] pool.pending@[r2]).values@.len()
                    == pool.configurations@.len() && (pool.pending@[r2]).contributed() by {
                    let j = choose|j: int|
                        0 <= j < i + 1 && pool.pending@[r2] == all[j];
                    assert(all[j].values@.len() == old(pool).configurations@.len());
                    assert(all[j].contributed());
                }
                assert forall|r1: int, r2: int|
                    0 <= r1 < r2 < pool.pending@.len() implies pool.pending@[r1].key@
                    != pool.pending@[r2].key@ by {
                    let j1 = choose|j: int|
                        0 <= j < i + 1 && pool.pending@[r1] == all[j];
                    if r2 == pool.pending@.len() - 1 {
                        assert(pool.pending@[r2] == all[i]);
                        assert(j1 < i);
                        assert(all[j1].key@ != all[i].key@);
                    }
                }
                assert(incomplete_rows(all.subrange(0, i).push(row)) == incomplete_rows(
                    all.subrange(0, i),
                ).push(row));
                assert(complete_rows(all.subrange(0, i).push(row)) == complete_rows(
                    all.subrange(0, i),
                ));
                assert(output.rows() == out0 + emitted_models(all.subrange(0, i + 1)));
                assert(all.subrange(0, i + 1).drop_last() =~= all.subrange(0, i));
                assert(all.subrange(0, i + 1).last() == row);
                assert(warnings.reports() =~= w0 + drain_reports(cfgs, all.subrange(0, i + 1)));
            }
        }
        proof {
            i = i + 1;
        }
    }
    proof {
        assert(all.subrange(0, all.len() as int) =~= all);
    }
}

/// The mapping that one producer's consumed prefix defines so far.
pub open spec fn consumed_map(p: StreamProducer) -> Map<Seq<char>, Seq<char>> {
    stream_map(p.consumed())
}

/// The mapping that one producer's whole source defines.
pub open spec fn full_map(p: StreamProducer) -> Map<Seq<char>, Seq<char>> {
    stream_map(p.entries_view())
}

/// Every source has pairwise-distinct keys.
pub open spec fn all_distinct(producers: Seq<StreamProducer>) -> bool {
    forall|i: int|
        0 <= i < producers.len() ==> distinct_keys((#[trigger] producers[i]).entries_view())
}

/// The pool and the producers fit together: one producer per configuration,
/// the active set mirrors which producers still hold their resource, and a
/// producer leaves the active set only once exhausted.
pub open spec fn advance_wf(pool: StringsPool, producers: Seq<StreamProducer>) -> bool {
    &&& pool.wf()
    &&& producers.len() == pool.configurations@.len()
    &&& forall|i: int| 0 <= i < producers.len() ==> (#[trigger] producers[i]).wf()
    &&& forall|i: int|
        0 <= i < producers.len() ==> (pool.active@[i] <==> !(#[trigger] producers[i]).released_view())
    &&& forall|i: int|
        0 <= i < producers.len() ==> (!pool.active@[i] ==> (#[trigger] producers[i]).exhausted())
}

/// Every value a pending row holds is the latest value its configuration's
/// consumed prefix defines for that key.
pub open spec fn values_match(pool: StringsPool, producers: Seq<StreamProducer>) -> bool {
    forall|r: int, i: int|
        0 <= r < pool.pending@.len() && 0 <= i < producers.len() && (#[trigger] pool.pending@[r].values@[i]) is Some
            ==> consumed_map(producers[i]).contains_key(pool.pending@[r].key@) && (pool.pending@[r].values@[i]->Some_0)@
            == consumed_map(producers[i])[pool.pending@[r].key@]
}

/// A pending row's slot is filled exactly when the configuration's consumed
/// prefix has seen the key.
pub open spec fn values_exact(pool: StringsPool, producers: Seq<StreamProducer>) -> bool {
    forall|r: int, i: int|
        0 <= r < pool.pending@.len() && 0 <= i < producers.len() ==> ((
        #[trigger] pool.pending@[r].values@[i]) is Some <==> consumed_map(
            producers[i],
        ).contains_key(pool.pending@[r].key@))
}

/// Whether some emitted row carries the key.
pub open spec fn rows_contain_key(rows: Seq<(Seq<char>, Seq<Seq<char>>, bool)>, k: Seq<char>) -> bool {
    exists|a: int| 0 <= a < rows.len() && (#[trigger] rows[a]).0 == k
}

/// Every key some configuration has seen is either already emitted or still
/// in flight.
pub open spec fn pending_covers(
    pool: StringsPool,
    producers: Seq<StreamProducer>,
    data: Seq<(Seq<char>, Seq<Seq<char>>, bool)>,
) -> bool {
    forall|i: int, k: Seq<char>|
        0 <= i < producers.len() && #[trigger] consumed_map(producers[i]).contains_key(k)
            && !rows_contain_key(data, k) ==> pool.has_key(k)
}

/// A pending row holds a value for every configuration that has already
/// seen its key, as long as the key has not been emitted: slots fill
/// monotonically and are lost only by emission.
pub open spec fn sighted_slots_filled(
    pool: StringsPool,
    producers: Seq<StreamProducer>,
    data: Seq<(Seq<char>, Seq<Seq<char>>, bool)>,
) -> bool {
    forall|r: int, j: int|
        0 <= r < pool.pending@.len() && 0 <= j < producers.len() && consumed_map(
            producers[j],
        ).contains_key(pool.pending@[r].key@) && !rows_contain_key(data, pool.pending@[r].key@)
            ==> (#[trigger] pool.pending@[r].values@[j]) is Some
}

/// Every emitted key has been seen by every configuration's consumed prefix.
pub open spec fn data_seen_everywhere(
    producers: Seq<StreamProducer>,
    data: Seq<(Seq<char>, Seq<Seq<char>>, bool)>,
) -> bool {
    forall|a: int, i: int|
        0 <= a < data.len() && 0 <= i < producers.len() ==> consumed_map(
            #[trigger] producers[i],
        ).contains_key((#[trigger] data[a]).0)
}

/// Every emitted key has been seen by every configuration's whole source.
pub open spec fn data_keys_full(
    producers: Seq<StreamProducer>,
    data: Seq<(Seq<char>, Seq<Seq<char>>, bool)>,
) -> bool {
    forall|a: int, i: int|
        0 <= a < data.len() && 0 <= i < producers.len() ==> full_map(
            #[trigger] producers[i],
        ).contains_key((#[trigger] data[a]).0)
}

/// Every emitted row is quoted, has one value per configuration, and each
/// value is what its configuration's source defines for the key.
pub open spec fn data_vals_full(
    producers: Seq<StreamProducer>,
    data: Seq<(Seq<char>, Seq<Seq<char>>, bool)>,
) -> bool {
    forall|a: int|
        0 <= a < data.len() ==> (#[trigger] data[a]).2 == true && data[a].1.len()
            == producers.len() && (forall|i: int|
            0 <= i < producers.len() ==> full_map(#[trigger] producers[i]).contains_key(data[a].0)
                && data[a].1[i] == full_map(producers[i])[data[a].0])
}

/// No key is emitted twice.
pub open spec fn data_keys_unique(data: Seq<(Seq<char>, Seq<Seq<char>>, bool)>) -> bool {
    forall|a: int, b: int| 0 <= a < b < data.len() ==> (#[trigger] data[a]).0 != (#[trigger] data[b]).0
}

/// No key both sits in the pending-row map and has been emitted.
pub open spec fn pending_disjoint(
    pool: StringsPool,
    data: Seq<(Seq<char>, Seq<Seq<char>>, bool)>,
) -> bool {
    forall|r: int, a: int|
        0 <= r < pool.pending@.len() && 0 <= a < data.len() ==> (#[trigger] pool.pending@[r]).key@
            != (#[trigger] data[a]).0
}

/// The facts the merge keeps when every source has distinct keys.
pub open spec fn hyp_inv(
    pool: StringsPool,
    producers: Seq<StreamProducer>,
    data: Seq<(Seq<char>, Seq<Seq<char>>, bool)>,
) -> bool {
    &&& values_exact(pool, producers)
    &&& pending_covers(pool, producers, data)
    &&& data_seen_everywhere(producers, data)
    &&& data_vals_full(producers, data)
    &&& data_keys_unique(data)
    &&& pending_disjoint(pool, data)
}

/// One advance round: pulls the next record from every configuration still
/// active. A yielded record is recorded (overwriting, with a duplicate-key
/// diagnostic, when the same key and configuration pair had already
/// contributed); a producer that signals exhaustion has its resource released
/// at once and leaves the active set.
#[verifier::rlimit(60)]
pub fn read_entry_for_each_configuration<W: WarningsCollector>(
    pool: &mut StringsPool,
    producers: &mut Vec<StreamProducer>,
    warnings: &mut W,
    data: Ghost<Seq<(Seq<char>, Seq<Seq<char>>, bool)>>,
)
    requires
        advance_wf(*old(pool), old(producers)@),
        values_match(*old(pool), old(producers)@),
        pending_covers(*old(pool), old(producers)@, data@),
        sighted_slots_filled(*old(pool), old(producers)@, data@),
        all_distinct(old(producers)@) ==> hyp_inv(*old(pool), old(producers)@, data@),
    ensures
        advance_wf(*final(pool), final(producers)@),
        values_match(*final(pool), final(producers)@),
        pending_covers(*final(pool), final(producers)@, data@),
        sighted_slots_filled(*final(pool), final(producers)@, data@),
        final(pool).pending@.len() >= old(pool).pending@.len(),
        forall|r: int|
            0 <= r < old(pool).pending@.len() ==> (#[trigger] final(pool).pending@[r]).key == old(
                pool,
            ).pending@[r].key,
        forall|r: int, j: int|
            0 <= r < old(pool).pending@.len() && 0 <= j < old(producers)@.len() ==> (
            #[trigger] final(pool).pending@[r].values@[j]) == old(pool).pending@[r].values@[j] || (
            old(pool).active@[j] && !old(producers)@[j].exhausted() && old(
                pool,
            ).pending@[r].key@ == old(producers)@[j].entries_view()[old(
                producers,
            )@[j].pos_view()].key@ && final(pool).pending@[r].values@[j] == Some(
                old(producers)@[j].entries_view()[old(producers)@[j].pos_view()].value,
            )),
        all_distinct(old(producers)@) ==> hyp_inv(*final(pool), final(producers)@, data@),
        final(pool).configurations == old(pool).configurations,
        final(producers)@.len() == old(producers)@.len(),
        forall|i: int|
            0 <= i < old(producers)@.len() ==> (#[trigger] final(producers)@[i]).entries_view()
                == old(producers)@[i].entries_view(),
        forall|i: int|
            0 <= i < old(producers)@.len() ==> (#[trigger] final(pool).active@[i]) == (old(
                pool,
            ).active@[i] && !old(producers)@[i].exhausted()),
        forall|i: int|
            0 <= i < old(producers)@.len() ==> (#[trigger] final(producers)@[i]).pos_view() == old(
                producers,
            )@[i].pos_view() + (if old(pool).active@[i] && !old(producers)@[i].exhausted() {
                1int
            } else {
                0int
            }),
        final(warnings).configurations_count() == old(warnings).configurations_count(),
        final(warnings).pending_empty() == old(warnings).pending_empty(),
        old(warnings).reports().is_prefix_of(final(warnings).reports()),
        all_distinct(old(producers)@) ==> final(warnings).reports() == old(warnings).reports(),
{
    let ghost w0 = old(warnings).reports();
    let n = producers.len();
    let mut i: usize = 0;
    while i < n
        invariant
            0 <= i <= n,
            n == old(producers)@.len(),
            producers@.len() == n,
            advance_wf(*old(pool), old(producers)@),
            old(pool).active@.len() == n,
            pool.configurations == old(pool).configurations,
            advance_wf(*pool, producers@),
            values_match(*pool, producers@),
            pending_covers(*pool, producers@, data@),
            sighted_slots_filled(*pool, producers@, data@),
            pool.pending@.len() >= old(pool).pending@.len(),
            forall|r: int|
                0 <= r < old(pool).pending@.len() ==> (#[trigger] pool.pending@[r]).key == old(
                    pool,
                ).pending@[r].key,
            forall|r: int, j: int|
                0 <= r < old(pool).pending@.len() && 0 <= j < n ==> (
                #[trigger] pool.pending@[r].values@[j]) == old(pool).pending@[r].values@[j] || (j
                    < i && old(pool).active@[j] && !old(producers)@[j].exhausted() && old(
                    pool,
                ).pending@[r].key@ == old(producers)@[j].entries_view()[old(
                    producers,
                )@[j].pos_view()].key@ && pool.pending@[r].values@[j] == Some(
                    old(producers)@[j].entries_view()[old(producers)@[j].pos_view()].value,
                )),
            all_distinct(old(producers)@) ==> hyp_inv(*pool, producers@, data@),
            forall|j: int|
                0 <= j < n ==> (#[trigger] producers@[j]).entries_view() == old(
                    producers,
                )@[j].entries_view(),
            forall|j: int| i <= j < n ==> (#[trigger] producers@[j]) == old(producers)@[j],
            forall|j: int| i <= j < n ==> (#[trigger] pool.active@[j]) == old(pool).active@[j],
            forall|j: int|
                0 <= j < i ==> (#[trigger] pool.active@[j]) == (old(pool).active@[j] && !old(
                    producers,
                )@[j].exhausted()),
            forall|j: int|
                0 <= j < i ==> (#[trigger] producers@[j]).pos_view() == old(
                    producers,
                )@[j].pos_view() + (if old(pool).active@[j] && !old(producers)@[j].exhausted() {
                    1int
                } else {
                    0int
                }),
            warnings.configurations_count() == old(warnings).configurations_count(),
            warnings.pending_empty() == old(warnings).pending_empty(),
            w0.is_prefix_of(warnings.reports()),
            all_distinct(old(producers)@) ==> warnings.reports() == w0,
        decreases n - i,
    {
        let is_active = pool.active[i];
        if is_active {
            let ghost producers0 = producers@;
            let ghost pool0 = *pool;
            let mut p = producers.remove(i);
            let got = p.next();
            match got {
                Some(e) => {
                    let ghost p1 = p;
                    let ghost e0 = e;
                    let key_copy = e.key.clone();
                    proof {
                        assert(p1.consumed() =~= producers0[i as int].consumed().push(e0));
                        lemma_stream_map_push(producers0[i as int].consumed(), e0);
                        if all_distinct(old(producers)@) {
                            assert(distinct_keys(producers0[i as int].entries_view()));
                            lemma_stream_map_contains(producers0[i as int].consumed(), e0.key@);
                            assert forall|j: int|
                                0 <= j < producers0[i as int].consumed().len() implies producers0[i as int].consumed()[j].key@
                                != e0.key@ by {
                                assert(producers0[i as int].consumed()[j] == producers0[i as int].entries_view()[j]);
                                assert(producers0[i as int].entries_view()[producers0[i as int].pos_view()]
                                    == e0);
                            }
                            assert(!consumed_map(producers0[i as int]).contains_key(e0.key@));
                        }
                    }
                    let dup = pool.record_entry(i, e);
                    producers.insert(i, p);
                    proof {
                        assert(producers@ =~= producers0.update(i as int, p1));
                        let cm0 = consumed_map(producers0[i as int]);
                        let cm1 = consumed_map(producers@[i as int]);
                        assert(cm1 == cm0.insert(e0.key@, e0.value@));
                        if all_distinct(old(producers)@) {
                            // the contributing slot was empty, so no duplicate report
                            if pool0.has_key(e0.key@) {
                                let r = pool0.key_index(e0.key@);
                                assert(pool0.pending@[r].key@ == e0.key@);
                                assert(!(pool0.pending@[r].values@[i as int] is Some));
                            }
                            assert(dup == false);
                        }
                        assert forall|r2: int, j: int|
                            0 <= r2 < pool.pending@.len() && 0 <= j < producers@.len() && (
                            #[trigger] pool.pending@[r2].values@[j]) is Some implies consumed_map(
                            producers@[j],
                        ).contains_key(pool.pending@[r2].key@) && (pool.pending@[r2].values@[j]->Some_0)@
                            == consumed_map(producers@[j])[pool.pending@[r2].key@] by {
                            if pool0.has_key(e0.key@) {
                                let r = pool0.key_index(e0.key@);
                                if r2 == r {
                                    assert(pool.pending@[r2].key@ == e0.key@);
                                    if j == i as int {
                                        assert(pool.pending@[r2].values@[j] == Some(e0.value));
                                    } else {
                                        assert(pool.pending@[r2].values@[j]
                                            == pool0.pending@[r2].values@[j]);
                                        assert(producers@[j] == producers0[j]);
                                    }
                                } else {
                                    assert(pool.pending@[r2] == pool0.pending@[r2]);
                                    if j == i as int {
                                        assert(pool.pending@[r2].key@ != e0.key@);
                                    } else {
                                        assert(producers@[j] == producers0[j]);
                                    }
                                }
                            } else {
                                if r2 < pool0.pending@.len() {
                                    assert(pool.pending@[r2] == pool.pending@.subrange(
                                        0,
                                        pool0.pending@.len() as int,
                                    )[r2]);
                                    assert(pool.pending@[r2] == pool0.pending@[r2]);
                                    if j == i as int {
                                        assert(pool.pending@[r2].key@ != e0.key@);
                                    } else {
                                        assert(producers@[j] == producers0[j]);
                                    }
                                } else {
                                    assert(pool.pending@[r2] == pool.pending@.last());
                                    assert(pool.pending@[r2].key@ == e0.key@);
                                    if j == i as int {
                                        assert(pool.pending@[r2].values@[j] == Some(e0.value));
                                    } else {
                                        assert(!(pool.pending@[r2].values@[j] is Some));
                                    }
                                }
                            }
                        }
                    }
                    proof {
                        let cm0 = consumed_map(producers0[i as int]);
                        let cm1 = consumed_map(producers@[i as int]);
                        let ol0 = pool0.pending@.len() as int;
                        // keys survive this record, at their positions
                        assert forall|r2: int| 0 <= r2 < ol0 implies (
                        #[trigger] pool.pending@[r2]).key == pool0.pending@[r2].key by {
                            if pool0.has_key(e0.key@) {
                                let r = pool0.key_index(e0.key@);
                                if r2 != r {
                                    assert(pool.pending@[r2] == pool0.pending@[r2]);
                                }
                            } else {
                                assert(pool.pending@[r2] == pool.pending@.subrange(0, ol0)[r2]);
                            }
                        }
                        assert forall|k: Seq<char>| pool0.has_key(k) implies pool.has_key(k) by {
                            let r = pool0.key_index(k);
                            assert(pool0.pending@[r].key@ == k);
                            assert(pool.pending@[r].key@ == k);
                        }
                        // every sighted key is still emitted or in flight
                        assert forall|jj: int, k: Seq<char>|
                            0 <= jj < producers@.len() && #[trigger] consumed_map(
                            producers@[jj],
                        ).contains_key(k) && !rows_contain_key(data@, k) implies pool.has_key(
                            k,
                        ) by {
                            if jj == i as int && k == e0.key@ {
                                if pool0.has_key(e0.key@) {
                                    let r = pool0.key_index(e0.key@);
                                    assert(pool.pending@[r].key@ == e0.key@);
                                } else {
                                    assert(pool.pending@[pool.pending@.len() - 1].key@
                                        == e0.key@);
                                }
                            } else {
                                assert(consumed_map(producers0[jj]).contains_key(k)) by {
                                    if jj != i as int {
                                        assert(producers@[jj] == producers0[jj]);
                                    }
                                }
                                assert(pool0.has_key(k));
                            }
                        }
                        // slots for already-sighted keys stay filled
                        assert forall|r2: int, j: int|
                            0 <= r2 < pool.pending@.len() && 0 <= j < producers@.len()
                                && consumed_map(producers@[j]).contains_key(
                                pool.pending@[r2].key@,
                            ) && !rows_contain_key(data@, pool.pending@[r2].key@) implies (
                        #[trigger] pool.pending@[r2].values@[j]) is Some by {
                            if pool0.has_key(e0.key@) {
                                let r = pool0.key_index(e0.key@);
                                if r2 == r {
                                    assert(pool.pending@[r2].key@ == e0.key@);
                                    if j != i as int {
                                        assert(pool.pending@[r2].values@[j]
                                            == pool0.pending@[r2].values@[j]);
                                        assert(producers@[j] == producers0[j]);
                                        assert(pool0.pending@[r2].key@ == e0.key@);
                                    }
                                } else {
                                    assert(pool.pending@[r2] == pool0.pending@[r2]);
                                    if j == i as int {
                                        assert(pool0.pending@[r2].key@ != e0.key@);
                                        assert(cm0.contains_key(pool0.pending@[r2].key@));
                                    } else {
                                        assert(producers@[j] == producers0[j]);
                                    }
                                }
                            } else {
                                if r2 < ol0 {
                                    assert(pool.pending@[r2] == pool.pending@.subrange(
                                        0,
                                        ol0,
                                    )[r2]);
                                    assert(pool.pending@[r2] == pool0.pending@[r2]);
                                    assert(pool0.pending@[r2].key@ != e0.key@);
                                    if j == i as int {
                                        assert(cm0.contains_key(pool0.pending@[r2].key@));
                                    } else {
                                        assert(producers@[j] == producers0[j]);
                                    }
                                } else {
                                    assert(pool.pending@[r2].key@ == e0.key@);
                                    if j != i as int {
                                        assert(producers@[j] == producers0[j]);
                                        assert(pool0.has_key(e0.key@));
                                        assert(false);
                                    }
                                }
                            }
                        }
                        // untouched slots of the rows that existed at entry keep
                        // their values; the contributing slot gets this round's
                        // record for its key
                        assert forall|r2: int, j: int|
                            0 <= r2 < old(pool).pending@.len() && 0 <= j < n implies (
                        #[trigger] pool.pending@[r2].values@[j]) == old(
                            pool,
                        ).pending@[r2].values@[j] || (j < i + 1 && old(pool).active@[j] && !old(
                            producers,
                        )@[j].exhausted() && old(pool).pending@[r2].key@ == old(
                            producers,
                        )@[j].entries_view()[old(producers)@[j].pos_view()].key@ && pool.pending@[r2].values@[j]
                            == Some(
                            old(producers)@[j].entries_view()[old(producers)@[j].pos_view()].value,
                        )) by {
                            assert(old(pool).pending@.len() <= ol0);
                            if j == i as int {
                                assert(pool0.pending@[r2].values@[j] == old(
                                    pool,
                                ).pending@[r2].values@[j]);
                                assert(producers0[i as int] == old(producers)@[i as int]);
                                assert(e0 == old(producers)@[j].entries_view()[old(
                                    producers,
                                )@[j].pos_view()]);
                                if pool0.has_key(e0.key@) && pool0.key_index(e0.key@) == r2 {
                                    assert(pool.pending@[r2].values@[j] == Some(e0.value));
                                    assert(pool0.pending@[r2].key@ == e0.key@);
                                    assert(old(pool).pending@[r2].key@ == pool0.pending@[r2].key@);
                                } else if pool0.has_key(e0.key@) {
                                    assert(pool.pending@[r2] == pool0.pending@[r2]);
                                } else {
                                    assert(pool.pending@[r2] == pool.pending@.subrange(
                                        0,
                                        ol0,
                                    )[r2]);
                                    assert(pool.pending@[r2] == pool0.pending@[r2]);
                                }
                            } else {
                                assert(pool.pending@[r2].values@[j] == pool0.pending@[r2].values@[j])
                                    by {
                                    if pool0.has_key(e0.key@) {
                                        let r = pool0.key_index(e0.key@);
                                        if r2 == r {
                                            assert(pool.pending@[r2].values@ == pool0.pending@[r2].values@.update(
                                                i as int,
                                                Some(e0.value),
                                            ));
                                        } else {
                                            assert(pool.pending@[r2] == pool0.pending@[r2]);
                                        }
                                    } else {
                                        assert(pool.pending@[r2] == pool.pending@.subrange(
                                            0,
                                            ol0,
                                        )[r2]);
                                    }
                                }
                            }
                        }
                    }
                    if dup {
                        warnings.duplicated_key(&key_copy, &pool.configurations[i]);
                    }
                    proof {
                        if all_distinct(old(producers)@) {
                            let ghost poolx = *pool;
                            let producersx = producers@;
                            let cm0 = consumed_map(producers0[i as int]);
                            assert(!cm0.contains_key(e0.key@));
                            // the new key is not among the emitted rows
                            assert(!rows_contain_key(data@, e0.key@)) by {
                                if rows_contain_key(data@, e0.key@) {
                                    let a = choose|a: int|
                                        0 <= a < data@.len() && data@[a].0 == e0.key@;
                                    assert(consumed_map(producers0[i as int]).contains_key(
                                        data@[a].0,
                                    ));
                                }
                            }
                            assert forall|r2: int, j: int|
                                0 <= r2 < poolx.pending@.len() && 0 <= j < producersx.len() implies ((
                            #[trigger] poolx.pending@[r2].values@[j]) is Some <==> consumed_map(
                                producersx[j],
                            ).contains_key(poolx.pending@[r2].key@)) by {
                                if pool0.has_key(e0.key@) {
                                    let r = pool0.key_index(e0.key@);
                                    if r2 == r {
                                        if j != i as int {
                                            assert(poolx.pending@[r2].values@[j]
                                                == pool0.pending@[r2].values@[j]);
                                            assert(producersx[j] == producers0[j]);
                                            assert(poolx.pending@[r2].key@
                                                == pool0.pending@[r2].key@);
                                        }
                                    } else {
                                        assert(poolx.pending@[r2] == pool0.pending@[r2]);
                                        if j == i as int {
                                            assert(poolx.pending@[r2].key@ != e0.key@);
                                        } else {
                                            assert(producersx[j] == producers0[j]);
                                        }
                                    }
                                } else {
                                    if r2 < pool0.pending@.len() {
                                        assert(poolx.pending@[r2] == poolx.pending@.subrange(
                                            0,
                                            pool0.pending@.len() as int,
                                        )[r2]);
                                        assert(poolx.pending@[r2] == pool0.pending@[r2]);
                                        if j == i as int {
                                            assert(poolx.pending@[r2].key@ != e0.key@);
                                        } else {
                                            assert(producersx[j] == producers0[j]);
                                        }
                                    } else {
                                        assert(poolx.pending@[r2] == poolx.pending@.last());
                                        assert(poolx.pending@[r2].key@ == e0.key@);
                                        if j == i as int {
                                        } else {
                                            // no other configuration has seen this key yet
                                            assert(producersx[j] == producers0[j]);
                                            if consumed_map(producers0[j]).contains_key(e0.key@) {
                                                assert(pool0.has_key(e0.key@));
                                            }
                                            assert(!consumed_map(producersx[j]).contains_key(
                                                e0.key@,
                                            ));
                                        }
                                    }
                                }
                            }
                            assert forall|j: int, k: Seq<char>|
                                0 <= j < producersx.len() && #[trigger] consumed_map(
                                producersx[j],
                            ).contains_key(k) && !rows_contain_key(data@, k) implies poolx.has_key(
                                k,
                            ) by {
                                if j == i as int && k == e0.key@ {
                                    if pool0.has_key(e0.key@) {
                                        let r = pool0.key_index(e0.key@);
                                        assert(poolx.pending@[r].key@ == e0.key@);
                                    } else {
                                        assert(poolx.pending@.last().key@ == e0.key@);
                                        assert(poolx.pending@[poolx.pending@.len() - 1].key@
                                            == e0.key@);
                                    }
                                } else {
                                    assert(consumed_map(producers0[j]).contains_key(k) || (j
                                        == i as int && consumed_map(producers0[j]).contains_key(
                                        k,
                                    )));
                                    assert(pool0.has_key(k));
                                    let r = pool0.key_index(k);
                                    assert(pool0.pending@[r].key@ == k);
                                    if pool0.has_key(e0.key@) {
                                        assert(poolx.pending@[r].key@ == k);
                                    } else {
                                        assert(poolx.pending@[r] == poolx.pending@.subrange(
                                            0,
                                            pool0.pending@.len() as int,
                                        )[r]);
                                        assert(poolx.pending@[r].key@ == k);
                                    }
                                }
                            }
                            assert forall|a: int, j: int|
                                0 <= a < data@.len() && 0 <= j < producersx.len() implies consumed_map(
                                #[trigger] producersx[j],
                            ).contains_key((#[trigger] data@[a]).0) by {
                                assert(consumed_map(producers0[j]).contains_key(data@[a].0));
                            }
                            assert forall|r2: int, a: int|
                                0 <= r2 < poolx.pending@.len() && 0 <= a < data@.len() implies (
                            #[trigger] poolx.pending@[r2]).key@ != (#[trigger] data@[a]).0 by {
                                if pool0.has_key(e0.key@) {
                                    assert(poolx.pending@[r2].key@ == pool0.pending@[r2].key@);
                                } else {
                                    if r2 < pool0.pending@.len() {
                                        assert(poolx.pending@[r2] == poolx.pending@.subrange(
                                            0,
                                            pool0.pending@.len() as int,
                                        )[r2]);
                                    } else {
                                        assert(poolx.pending@[r2].key@ == e0.key@);
                                    }
                                }
                            }
                            assert(data_vals_full(producersx, data@)) by {
                                assert forall|a: int| 0 <= a < data@.len() implies (
                                #[trigger] data@[a]).2 == true && data@[a].1.len()
                                    == producersx.len() && (forall|j: int|
                                    0 <= j < producersx.len() ==> full_map(
                                        #[trigger] producersx[j],
                                    ).contains_key(data@[a].0) && data@[a].1[j] == full_map(
                                        producersx[j],
                                    )[data@[a].0]) by {
                                    assert forall|j: int| 0 <= j < producersx.len() implies full_map(
                                        #[trigger] producersx[j],
                                    ).contains_key(data@[a].0) && data@[a].1[j] == full_map(
                                        producersx[j],
                                    )[data@[a].0] by {
                                        assert(producersx[j].entries_view()
                                            == producers0[j].entries_view());
                                        assert(full_map(producersx[j]) == full_map(producers0[j]));
                                    }
                                }
                            }
                        }
                    }
                },
                None => {
                    p.clear();
                    pool.mark_exhausted(i);
                    producers.insert(i, p);
                    proof {
                        assert(producers@ =~= producers0.update(i as int, producers@[i as int]));
                        assert(producers@[i as int].consumed() =~= producers0[i as int].consumed());
                        assert forall|j: int| 0 <= j < producers@.len() implies consumed_map(
                            #[trigger] producers@[j],
                        ) == consumed_map(producers0[j]) by {
                            if j != i as int {
                                assert(producers@[j] == producers0[j]);
                            }
                        }
                    }
                },
            }
        }
        i = i + 1;
    }
}

/// The per-source views of the input streams.
pub open spec fn stream_views(streams: Seq<Vec<AndroidStringsEntry>>) -> Seq<
    Seq<AndroidStringsEntry>,
> {
    streams.map_values(|v: Vec<AndroidStringsEntry>| v@)
}

/// The key is defined by every source.
pub open spec fn key_in_all(svs: Seq<Seq<AndroidStringsEntry>>, k: Seq<char>) -> bool {
    forall|i: int| 0 <= i < svs.len() ==> stream_map(#[trigger] svs[i]).contains_key(k)
}

/// The key is defined by at least one source.
pub open spec fn key_in_some(svs: Seq<Seq<AndroidStringsEntry>>, k: Seq<char>) -> bool {
    exists|i: int| 0 <= i < svs.len() && stream_map(#[trigger] svs[i]).contains_key(k)
}

/// Every source has pairwise-distinct keys.
pub open spec fn streams_distinct(svs: Seq<Seq<AndroidStringsEntry>>) -> bool {
    forall|i: int| 0 <= i < svs.len() ==> distinct_keys(#[trigger] svs[i])
}

/// Every source is shorter than the iteration cap.
pub open spec fn all_shorter_than(svs: Seq<Seq<AndroidStringsEntry>>, cap: int) -> bool {
    forall|i: int| 0 <= i < svs.len() ==> (#[trigger] svs[i]).len() < cap
}

/// Every emitted key occurs in every source.
pub open spec fn data_keys_in_streams(
    svs: Seq<Seq<AndroidStringsEntry>>,
    data: Seq<(Seq<char>, Seq<Seq<char>>, bool)>,
) -> bool {
    forall|a: int, i: int|
        0 <= a < data.len() && 0 <= i < svs.len() ==> stream_map(#[trigger] svs[i]).contains_key(
            (#[trigger] data[a]).0,
        )
}

/// Every emitted value is the one its source defines for the row's key.
pub open spec fn data_values_from_streams(
    svs: Seq<Seq<AndroidStringsEntry>>,
    data: Seq<(Seq<char>, Seq<Seq<char>>, bool)>,
) -> bool {
    forall|a: int, i: int|
        0 <= a < data.len() && 0 <= i < svs.len() ==> (#[trigger] data[a]).1[i] == stream_map(
            #[trigger] svs[i],
        )[data[a].0]
}

/// A key is emitted exactly when every source defines it.
pub open spec fn emitted_keys_exact(
    svs: Seq<Seq<AndroidStringsEntry>>,
    data: Seq<(Seq<char>, Seq<Seq<char>>, bool)>,
) -> bool {
    forall|k: Seq<char>| rows_contain_key(data, k) <==> key_in_all(svs, k)
}

/// Whether the unresolved list carries the key.
pub open spec fn unresolved_lists_key(unres: Seq<String>, k: Seq<char>) -> bool {
    exists|r: int| 0 <= r < unres.len() && (#[trigger] unres[r])@ == k
}

/// The unresolved keys are exactly those some source defines but not all.
pub open spec fn unresolved_exact(unres: Seq<String>, svs: Seq<Seq<AndroidStringsEntry>>) -> bool {
    forall|k: Seq<char>|
        (exists|r: int| 0 <= r < unres.len() && (#[trigger] unres[r])@ == k) <==> (key_in_some(
            svs,
            k,
        ) && !key_in_all(svs, k))
}

/// Arrival-order independence: permuting the records within each
/// configuration's stream, while keeping each stream's records, leaves every
/// quantity the merge output is specified by unchanged — each source's
/// key-to-value mapping, hence which keys are complete, which keys stay
/// unresolved, and every emitted column value.
pub proof fn lemma_order_independence(
    svs1: Seq<Seq<AndroidStringsEntry>>,
    svs2: Seq<Seq<AndroidStringsEntry>>,
)
    requires
        streams_distinct(svs1),
        svs1.len() == svs2.len(),
        forall|i: int|
            0 <= i < svs1.len() ==> (#[trigger] svs1[i]).to_multiset() == svs2[i].to_multiset(),
    ensures
        streams_distinct(svs2),
        forall|i: int| 0 <= i < svs1.len() ==> stream_map(#[trigger] svs2[i]) == stream_map(svs1[i]),
        forall|k: Seq<char>| #[trigger] key_in_all(svs1, k) == key_in_all(svs2, k),
        forall|k: Seq<char>| #[trigger] key_in_some(svs1, k) == key_in_some(svs2, k),
{
    assert forall|i: int| 0 <= i < svs1.len() implies distinct_keys(#[trigger] svs2[i])
        && stream_map(svs2[i]) == stream_map(svs1[i]) by {
        crate::models::lemma_stream_map_permutation(svs1[i], svs2[i]);
    }
    assert forall|k: Seq<char>| #[trigger] key_in_all(svs1, k) == key_in_all(svs2, k) by {
        assert forall|i: int|
            0 <= i < svs1.len() implies stream_map(#[trigger] svs1[i]).contains_key(k)
            == stream_map(svs2[i]).contains_key(k) by {
            assert(stream_map(svs2[i]) == stream_map(svs1[i]));
        }
    }
    assert forall|k: Seq<char>| #[trigger] key_in_some(svs1, k) == key_in_some(svs2, k) by {
        assert forall|i: int|
            0 <= i < svs1.len() implies stream_map(#[trigger] svs1[i]).contains_key(k)
            == stream_map(svs2[i]).contains_key(k) by {
            assert(stream_map(svs2[i]) == stream_map(svs1[i]));
        }
    }
}

/// Arrival-order independence for whole runs: two completed runs whose
/// sources hold the same records per configuration, each source free of
/// duplicate keys, emit the same set of keys with the same column values,
/// and leave the same keys unresolved. The hypotheses are exactly what the
/// merge's own contract gives for each run.
pub proof fn lemma_order_independence_outputs(
    svs1: Seq<Seq<AndroidStringsEntry>>,
    svs2: Seq<Seq<AndroidStringsEntry>>,
    data1: Seq<(Seq<char>, Seq<Seq<char>>, bool)>,
    data2: Seq<(Seq<char>, Seq<Seq<char>>, bool)>,
    unresolved1: Seq<String>,
    unresolved2: Seq<String>,
)
    requires
        streams_distinct(svs1),
        svs1.len() == svs2.len(),
        forall|i: int|
            0 <= i < svs1.len() ==> (#[trigger] svs1[i]).to_multiset() == svs2[i].to_multiset(),
        emitted_keys_exact(svs1, data1),
        emitted_keys_exact(svs2, data2),
        data_values_from_streams(svs1, data1),
        data_values_from_streams(svs2, data2),
        forall|a: int| 0 <= a < data1.len() ==> (#[trigger] data1[a]).1.len() == svs1.len(),
        forall|a: int| 0 <= a < data2.len() ==> (#[trigger] data2[a]).1.len() == svs2.len(),
        unresolved_exact(unresolved1, svs1),
        unresolved_exact(unresolved2, svs2),
    ensures
        forall|k: Seq<char>| rows_contain_key(data1, k) <==> rows_contain_key(data2, k),
        forall|a1: int, a2: int|
            0 <= a1 < data1.len() && 0 <= a2 < data2.len() && (#[trigger] data1[a1]).0 == (
            #[trigger] data2[a2]).0 ==> data1[a1].1 == data2[a2].1,
        forall|r: int|
            0 <= r < unresolved1.len() ==> unresolved_lists_key(
                unresolved2,
                (#[trigger] unresolved1[r])@,
            ),
        forall|r: int|
            0 <= r < unresolved2.len() ==> unresolved_lists_key(
                unresolved1,
                (#[trigger] unresolved2[r])@,
            ),
{
    lemma_order_independence(svs1, svs2);
    assert forall|k: Seq<char>|
        rows_contain_key(data1, k) <==> rows_contain_key(data2, k) by {
        assert(key_in_all(svs1, k) == key_in_all(svs2, k));
    }
    assert forall|a1: int, a2: int|
        0 <= a1 < data1.len() && 0 <= a2 < data2.len() && (#[trigger] data1[a1]).0 == (
        #[trigger] data2[a2]).0 implies data1[a1].1 == data2[a2].1 by {
        let k = data1[a1].0;
        assert forall|i: int| 0 <= i < svs1.len() implies data1[a1].1[i] == data2[a2].1[i] by {
            assert(data1[a1].1[i] == stream_map(svs1[i])[k]);
            assert(data2[a2].1[i] == stream_map(svs2[i])[k]);
            assert(stream_map(svs2[i]) == stream_map(svs1[i]));
        }
        assert(data1[a1].1 =~= data2[a2].1);
    }
    assert forall|r: int|
        0 <= r < unresolved1.len() implies unresolved_lists_key(
        unresolved2,
        (#[trigger] unresolved1[r])@,
    ) by {
        let k = unresolved1[r]@;
        assert(key_in_all(svs1, k) == key_in_all(svs2, k));
        assert(key_in_some(svs1, k) == key_in_some(svs2, k));
        assert(key_in_some(svs2, k) && !key_in_all(svs2, k));
        assert(exists|rx: int|
            0 <= rx < unresolved2.len() && (#[trigger] unresolved2[rx])@ == k);
        let rw = choose|rx: int|
            0 <= rx < unresolved2.len() && (#[trigger] unresolved2[rx])@ == k;
        assert(0 <= rw < unresolved2.len() && unresolved2[rw]@ == unresolved1[r]@);
    }
    assert forall|r: int|
        0 <= r < unresolved2.len() implies unresolved_lists_key(
        unresolved1,
        (#[trigger] unresolved2[r])@,
    ) by {
        let k = unresolved2[r]@;
        assert(key_in_all(svs1, k) == key_in_all(svs2, k));
        assert(key_in_some(svs1, k) == key_in_some(svs2, k));
        assert(key_in_some(svs1, k) && !key_in_all(svs1, k));
        assert(exists|rx: int|
            0 <= rx < unresolved1.len() && (#[trigger] unresolved1[rx])@ == k);
        let rw = choose|rx: int|
            0 <= rx < unresolved1.len() && (#[trigger] unresolved1[rx])@ == k;
        assert(0 <= rw < unresolved1.len() && unresolved1[rw]@ == unresolved2[r]@);
    }
}

/// The safety cap on merge rounds: a guard against a producer that never
/// signals exhaustion, never a silent failure.
pub const MAX_ITERATIONS: u64 = 1000000;

/// How a run ended.
#[derive(Clone, Copy, Debug, PartialEq, Eq, Structural)]
pub enum RunStatus {
    /// Every producer signalled exhaustion.
    Complete,
    /// The iteration cap was reached first; rows already emitted stay valid.
    BoundedStop,
}

/// What a run reports back beside its emitted rows.
pub struct MergeOutcome {
    pub status: RunStatus,
    /// Keys left in flight at the end: seen by some configuration but never
    /// completed, surfaced rather than dropped.
    pub unresolved: Vec<String>,
}

/// Each row a filter keeps is one of the rows filtered, and pairwise-distinct
/// keys stay pairwise-distinct.
proof fn lemma_filter_props(p: Seq<PendingRow>, pred: spec_fn(PendingRow) -> bool)
    requires
        forall|r1: int, r2: int| 0 <= r1 < r2 < p.len() ==> p[r1].key@ != p[r2].key@,
    ensures
        forall|r: int|
            0 <= r < p.filter(pred).len() ==> exists|j: int|
                0 <= j < p.len() && p[j] == #[trigger] p.filter(pred)[r],
        forall|r1: int, r2: int|
            0 <= r1 < r2 < p.filter(pred).len() ==> p.filter(pred)[r1].key@ != p.filter(
                pred,
            )[r2].key@,
    decreases p.len(),
{
    if p.len() > 0 {
        let dl = p.drop_last();
        lemma_filter_props(dl, pred);
        assert(dl.push(p.last()) =~= p);
        assert forall|r: int| 0 <= r < p.filter(pred).len() implies exists|j: int|
            0 <= j < p.len() && p[j] == #[trigger] p.filter(pred)[r] by {
            if r < dl.filter(pred).len() {
                assert(p.filter(pred)[r] == dl.filter(pred)[r]);
                let j = choose|j: int| 0 <= j < dl.len() && dl[j] == dl.filter(pred)[r];
                assert(p[j] == p.filter(pred)[r]);
            } else {
                assert(p.filter(pred)[r] == p.last());
                assert(p[p.len() - 1] == p.filter(pred)[r]);
            }
        }
        assert forall|r1: int, r2: int|
            0 <= r1 < r2 < p.filter(pred).len() implies p.filter(pred)[r1].key@ != p.filter(
            pred,
        )[r2].key@ by {
            if r2 < dl.filter(pred).len() {
                assert(p.filter(pred)[r1] == dl.filter(pred)[r1]);
                assert(p.filter(pred)[r2] == dl.filter(pred)[r2]);
            } else {
                assert(p.filter(pred)[r2] == p.last());
                assert(p.filter(pred)[r1] == dl.filter(pred)[r1]);
                let j = choose|j: int| 0 <= j < dl.len() && dl[j] == dl.filter(pred)[r1];
                assert(p[j].key@ != p[p.len() - 1].key@);
            }
        }
    }
}

/// Runs the whole merge over in-memory sources: writes the header, then
/// repeats advance and drain rounds until every producer is exhausted or the
/// iteration cap is reached. Emitted rows carry exactly the keys that every
/// configuration defines, in configuration order; keys missing from some
/// configuration are never emitted and are surfaced as unresolved.
#[verifier::rlimit(100)]
pub fn strings_to_csv<O: OutputConsumer, W: WarningsCollector>(
    configurations: &Vec<String>,
    streams: Vec<Vec<AndroidStringsEntry>>,
    max_iterations: u64,
    output: &mut O,
    warnings: &mut W,
) -> (outcome: MergeOutcome)
    requires
        streams@.len() == configurations@.len(),
        old(warnings).configurations_count() == configurations@.len(),
        old(warnings).pending_empty().len() == 0,
    ensures
        ({
            let sv = stream_views(streams@);
            let n = configurations@.len() as int;
            let base = old(output).rows().len() as int;
            let rows = final(output).rows();
            &&& (outcome.status == RunStatus::Complete <==> (n == 0 || all_shorter_than(
                sv,
                max_iterations as int,
            )))
            &&& final(warnings).pending_empty().len() == 0
            &&& final(warnings).configurations_count() == old(warnings).configurations_count()
            &&& old(warnings).reports().is_prefix_of(final(warnings).reports())
            &&& forall|r: int|
                0 <= r < outcome.unresolved@.len() ==> key_in_some(
                    sv,
                    (#[trigger] outcome.unresolved@[r])@,
                )
            &&& forall|r1: int, r2: int|
                0 <= r1 < r2 < outcome.unresolved@.len() ==> outcome.unresolved@[r1]@
                    != outcome.unresolved@[r2]@
            &&& (n == 0 ==> rows == old(output).rows())
            &&& (n > 0 ==> {
                let data = rows.skip(base + 1);
                &&& rows.len() > base
                &&& rows.subrange(0, base) == old(output).rows()
                &&& rows[base] == (("key"@, configurations.deep_view(), false))
                &&& forall|a: int|
                    0 <= a < data.len() ==> (#[trigger] data[a]).2 == true && data[a].1.len() == n
                &&& data_keys_in_streams(sv, data)
                &&& (outcome.status == RunStatus::Complete ==> emitted_keys_exact(sv, data))
                &&& (outcome.status == RunStatus::Complete ==> forall|r: int|
                    0 <= r < outcome.unresolved@.len() && key_in_all(
                        sv,
                        (#[trigger] outcome.unresolved@[r])@,
                    ) ==> rows_contain_key(data, outcome.unresolved@[r]@))
                &&& (streams_distinct(sv) && outcome.status == RunStatus::Complete ==> {
                    &&& data_keys_unique(data)
                    &&& data_values_from_streams(sv, data)
                    &&& unresolved_exact(outcome.unresolved@, sv)
                })
            })
        }),
{
    let ghost sv = stream_views(streams@);
    let n = configurations.len();
    let ghost base = old(output).rows().len() as int;
    let ghost w0 = old(warnings).reports();
    if n == 0 {
        // zero qualifying configurations: an informational empty result,
        // nothing is appended
        proof {
            assert(w0 =~= warnings.reports().subrange(0, w0.len() as int));
        }
        return MergeOutcome { status: RunStatus::Complete, unresolved: Vec::new() };
    }
    let mut pool = StringsPool {
        configurations: crate::models::clone_names(configurations),
        pending: Vec::new(),
        active: Vec::new(),
    };
    let mut ai: usize = 0;
    while ai < n
        invariant
            ai <= n,
            pool.active@.len() == ai,
            forall|j: int| 0 <= j < ai ==> pool.active@[j],
            pool.configurations@.len() == n,
            pool.pending@.len() == 0,
            n == configurations@.len(),
            pool.configurations.deep_view() == configurations.deep_view(),
        decreases n - ai,
    {
        pool.active.push(true);
        ai = ai + 1;
    }
    let mut streams = streams;
    let ghost streams0 = streams@;
    let mut producers: Vec<StreamProducer> = Vec::new();
    while streams.len() > 0
        invariant
            producers@.len() + streams@.len() == n,
            n == streams0.len(),
            sv == stream_views(streams0),
            streams@ =~= streams0.subrange(producers@.len() as int, streams0.len() as int),
            forall|j: int|
                0 <= j < producers@.len() ==> (#[trigger] producers@[j]).entries_view() == sv[j]
                    && producers@[j].pos_view() == 0 && !producers@[j].released_view()
                    && producers@[j].wf(),
        decreases streams@.len(),
    {
        let ghost pl = producers@.len() as int;
        let next_stream = streams.remove(0);
        proof {
            assert(next_stream == streams0.subrange(pl, streams0.len() as int)[0]);
            assert(next_stream == streams0[pl]);
            assert(sv[pl] == streams0[pl]@);
            assert(streams@ =~= streams0.subrange(pl + 1, streams0.len() as int));
        }
        producers.push(StreamProducer::new(next_stream));
    }
    let header_key = "key".to_owned();
    let names = crate::models::clone_names(configurations);
    output.append(&header_key, &names, false);
    let ghost hdr = ("key"@, configurations.deep_view(), false);
    proof {
        assert(names.deep_view() == configurations.deep_view());
        assert(output.rows() =~= old(output).rows().push(hdr));
    }
    let mut rounds: u64 = 0;
    let mut status = RunStatus::BoundedStop;
    let mut done = false;
    let ghost mut data: Seq<(Seq<char>, Seq<Seq<char>>, bool)> = Seq::empty();
    proof {
        assert(output.rows() =~= old(output).rows().push(hdr) + data);
        assert forall|i: int| 0 <= i < producers@.len() implies consumed_map(
            #[trigger] producers@[i],
        ) =~= Map::<Seq<char>, Seq<char>>::empty() by {
            assert(producers@[i].consumed() =~= Seq::<AndroidStringsEntry>::empty());
        }
    }
    while !done
        invariant
            n == configurations@.len(),
            sv.len() == n,
            producers@.len() == n,
            pool.configurations.deep_view() == configurations.deep_view(),
            advance_wf(pool, producers@),
            values_match(pool, producers@),
            pending_covers(pool, producers@, data),
            sighted_slots_filled(pool, producers@, data),
            forall|j: int| 0 <= j < n ==> (#[trigger] producers@[j]).entries_view() == sv[j],
            streams_distinct(sv) ==> hyp_inv(pool, producers@, data),
            forall|r: int| 0 <= r < pool.pending@.len() ==> !(#[trigger] pool.pending@[r]).complete(),
            output.rows() == old(output).rows().push(hdr) + data,
            forall|a: int|
                0 <= a < data.len() ==> (#[trigger] data[a]).2 == true && data[a].1.len() == n,
            data_keys_full(producers@, data),
            warnings.pending_empty().len() == 0,
            warnings.configurations_count() == old(warnings).configurations_count(),
            warnings.configurations_count() == n as nat,
            w0.is_prefix_of(warnings.reports()),
            rounds <= max_iterations,
            !done ==> forall|j: int|
                0 <= j < n ==> (#[trigger] producers@[j]).pos_view() == (if sv[j].len()
                    < rounds as int {
                    sv[j].len() as int
                } else {
                    rounds as int
                }),
            !done ==> forall|j: int|
                0 <= j < n ==> ((#[trigger] pool.active@[j]) <==> sv[j].len() >= rounds as int),
            done ==> (status == RunStatus::Complete <==> (n == 0 || all_shorter_than(
                sv,
                max_iterations as int,
            ))),
            done && status == RunStatus::Complete ==> forall|j: int|
                0 <= j < n ==> !(#[trigger] pool.active@[j]),
        decreases (if done {
            0int
        } else {
            max_iterations - rounds + 1
        }),
    {
        let unfinished = pool.has_unfinished_configurations();
        if !unfinished {
            status = RunStatus::Complete;
            done = true;
            proof {
                if n > 0 {
                    assert forall|j: int| 0 <= j < n implies (#[trigger] sv[j]).len()
                        < max_iterations as int by {
                        assert(!pool.active@[j]);
                        assert(sv[j].len() < rounds as int);
                    }
                }
            }
        } else if rounds >= max_iterations {
            status = RunStatus::BoundedStop;
            done = true;
            proof {
                let j = choose|j: int| 0 <= j < pool.active@.len() && pool.active@[j];
                assert(sv[j].len() >= max_iterations as int);
                assert(!all_shorter_than(sv, max_iterations as int));
            }
        } else {
            proof {
                if all_distinct(producers@) {
                    assert(streams_distinct(sv)) by {
                        assert forall|j: int| 0 <= j < sv.len() implies distinct_keys(
                            #[trigger] sv[j],
                        ) by {
                            assert(producers@[j].entries_view() == sv[j]);
                        }
                    }
                }
            }
            read_entry_for_each_configuration(&mut pool, &mut producers, warnings, Ghost(data));
            let ghost pend_mid = pool.pending@;
            let ghost pool_mid = pool;
            let ghost wmid = warnings.reports();
            save_fully_defined_entries(&mut pool, output, warnings);
            proof {
                if streams_distinct(sv) {
                    assert(all_distinct(producers@)) by {
                        assert forall|j: int| 0 <= j < producers@.len() implies distinct_keys(
                            (#[trigger] producers@[j]).entries_view(),
                        ) by {
                            assert(producers@[j].entries_view() == sv[j]);
                        }
                    }
                    assert(hyp_inv(pool_mid, producers@, data));
                }
                let emitted = emitted_models(pend_mid);
                let ghost data0 = data;
                let cpred = |r: PendingRow| r.complete();
                let ipred = |r: PendingRow| !r.complete();
                lemma_filter_props(pend_mid, cpred);
                lemma_filter_props(pend_mid, ipred);
                data = data0 + emitted;
                assert(output.rows() =~= old(output).rows().push(hdr) + data);
                // what the drain emitted comes from complete rows of the
                // pending map, whose recorded values the consumed prefixes
                // explain
                assert forall|a: int| 0 <= a < emitted.len() implies exists|r: int|
                    0 <= r < pend_mid.len() && pend_mid[r].complete() && #[trigger] emitted[a]
                        == row_model(pend_mid[r]) by {
                    assert(emitted[a] == row_model(complete_rows(pend_mid)[a]));
                    let j = choose|j: int|
                        0 <= j < pend_mid.len() && pend_mid[j] == complete_rows(pend_mid)[a];
                    assert(pend_mid[j].complete());
                }
                assert forall|a: int| 0 <= a < data.len() implies (#[trigger] data[a]).2 == true
                    && data[a].1.len() == n by {
                    if a >= data.len() - emitted.len() {
                        let ae = a - (data.len() - emitted.len());
                        let r = choose|r: int|
                            0 <= r < pend_mid.len() && pend_mid[r].complete() && emitted[ae]
                                == row_model(pend_mid[r]);
                        assert(pend_mid[r].values@.len() == n);
                    }
                }
                assert forall|a: int, i: int|
                    0 <= a < data.len() && 0 <= i < n implies full_map(
                    #[trigger] producers@[i],
                ).contains_key((#[trigger] data[a]).0) by {
                    if a >= data.len() - emitted.len() {
                        let ae = a - (data.len() - emitted.len());
                        let r = choose|r: int|
                            0 <= r < pend_mid.len() && pend_mid[r].complete() && emitted[ae]
                                == row_model(pend_mid[r]);
                        assert(pend_mid[r].values@[i] is Some);
                        assert(consumed_map(producers@[i]).contains_key(pend_mid[r].key@));
                        assert(producers@[i].consumed() == producers@[i].entries_view().subrange(
                            0,
                            producers@[i].pos_view(),
                        ));
                        lemma_stream_map_prefix_contains(
                            producers@[i].entries_view(),
                            producers@[i].pos_view(),
                            pend_mid[r].key@,
                        );
                    }
                }
                    assert forall|i: int, k: Seq<char>|
                        0 <= i < producers@.len() && #[trigger] consumed_map(
                        producers@[i],
                    ).contains_key(k) && !rows_contain_key(data, k) implies pool.has_key(k) by {
                        assert(!rows_contain_key(data0, k)) by {
                            if rows_contain_key(data0, k) {
                                let a = choose|a: int|
                                    0 <= a < data0.len() && (#[trigger] data0[a]).0 == k;
                                assert(data[a].0 == k);
                            }
                        }
                        assert(pool_mid.has_key(k));
                        let r = choose|r: int|
                            0 <= r < pend_mid.len() && (#[trigger] pend_mid[r].key@) == k;
                        if pend_mid[r].complete() {
                            assert(pend_mid.filter(cpred).contains(pend_mid[r]));
                            let a = choose|a: int|
                                0 <= a < complete_rows(pend_mid).len() && complete_rows(pend_mid)[a]
                                    == pend_mid[r];
                            assert(emitted[a] == row_model(pend_mid[r]));
                            assert(emitted[a].0 == k);
                            assert(data[data.len() - emitted.len() + a].0 == k);
                            assert(rows_contain_key(data, k));
                        } else {
                            assert(pend_mid.filter(ipred).contains(pend_mid[r]));
                            let b = choose|b: int|
                                0 <= b < incomplete_rows(pend_mid).len() && incomplete_rows(
                                    pend_mid,
                                )[b] == pend_mid[r];
                            assert(pool.pending@[b].key@ == k);
                        }
                    }
                    // slots already filled for sighted keys stay filled in the
                    // rows the drain keeps
                    assert forall|r2: int, j: int|
                        0 <= r2 < pool.pending@.len() && 0 <= j < producers@.len()
                            && consumed_map(producers@[j]).contains_key(pool.pending@[r2].key@)
                            && !rows_contain_key(data, pool.pending@[r2].key@) implies (
                    #[trigger] pool.pending@[r2].values@[j]) is Some by {
                        let jm = choose|jm: int|
                            0 <= jm < pend_mid.len() && pend_mid[jm] == incomplete_rows(
                                pend_mid,
                            )[r2];
                        assert(pool.pending@[r2] == pend_mid[jm]);
                        assert(pool_mid.pending@[jm] == pend_mid[jm]);
                        assert(!rows_contain_key(data0, pool.pending@[r2].key@)) by {
                            if rows_contain_key(data0, pool.pending@[r2].key@) {
                                let a = choose|a: int|
                                    0 <= a < data0.len() && (#[trigger] data0[a]).0
                                        == pool.pending@[r2].key@;
                                assert(data[a].0 == pool.pending@[r2].key@);
                            }
                        }
                        assert(pool_mid.pending@[jm].values@[j] is Some);
                    }
                if streams_distinct(sv) {
                    assert forall|r2: int, i: int|
                        0 <= r2 < pool.pending@.len() && 0 <= i < producers@.len() implies ((
                    #[trigger] pool.pending@[r2].values@[i]) is Some <==> consumed_map(
                        producers@[i],
                    ).contains_key(pool.pending@[r2].key@)) by {
                        let j = choose|j: int|
                            0 <= j < pend_mid.len() && pend_mid[j] == incomplete_rows(pend_mid)[r2];
                        assert(pool.pending@[r2] == pend_mid[j]);
                    }
                    assert forall|a: int, i: int|
                        0 <= a < data.len() && 0 <= i < producers@.len() implies consumed_map(
                        #[trigger] producers@[i],
                    ).contains_key((#[trigger] data[a]).0) by {
                        if a >= data.len() - emitted.len() {
                            let ae = a - (data.len() - emitted.len());
                            let r = choose|r: int|
                                0 <= r < pend_mid.len() && pend_mid[r].complete() && emitted[ae]
                                    == row_model(pend_mid[r]);
                            assert(pend_mid[r].values@[i] is Some);
                        }
                    }
                    assert forall|a: int| 0 <= a < data.len() implies (#[trigger] data[a]).2
                        == true && data[a].1.len() == producers@.len() && (forall|i: int|
                        0 <= i < producers@.len() ==> full_map(
                            #[trigger] producers@[i],
                        ).contains_key(data[a].0) && data[a].1[i] == full_map(
                            producers@[i],
                        )[data[a].0]) by {
                        if a < data.len() - emitted.len() {
                        } else {
                            let ae = a - (data.len() - emitted.len());
                            let r = choose|r: int|
                                0 <= r < pend_mid.len() && pend_mid[r].complete() && emitted[ae]
                                    == row_model(pend_mid[r]);
                            assert forall|i: int| 0 <= i < producers@.len() implies full_map(
                                #[trigger] producers@[i],
                            ).contains_key(data[a].0) && data[a].1[i] == full_map(
                                producers@[i],
                            )[data[a].0] by {
                                assert(pend_mid[r].values@[i] is Some);
                                assert(consumed_map(producers@[i]).contains_key(pend_mid[r].key@));
                                assert((pend_mid[r].values@[i]->Some_0)@ == consumed_map(
                                    producers@[i],
                                )[pend_mid[r].key@]);
                                assert(distinct_keys(producers@[i].entries_view()));
                                lemma_stream_map_prefix_value(
                                    producers@[i].entries_view(),
                                    producers@[i].pos_view(),
                                    pend_mid[r].key@,
                                );
                                assert(data[a].1[i] == unwrap_values(pend_mid[r].values@)[i]);
                            }
                        }
                    }
                    assert forall|a: int, b: int| 0 <= a < b < data.len() implies (
                    #[trigger] data[a]).0 != (#[trigger] data[b]).0 by {
                        let ne = data.len() - emitted.len();
                        if b >= ne {
                            let be = b - ne;
                            let rb = choose|r: int|
                                0 <= r < pend_mid.len() && pend_mid[r].complete() && emitted[be]
                                    == row_model(pend_mid[r]);
                            if a >= ne {
                                let ae = a - ne;
                                assert(emitted[ae].0 == complete_rows(pend_mid)[ae].key@);
                                assert(emitted[be].0 == complete_rows(pend_mid)[be].key@);
                            } else {
                                assert(pend_mid[rb].key@ != data[a].0);
                            }
                        }
                    }
                    assert forall|r2: int, a: int|
                        0 <= r2 < pool.pending@.len() && 0 <= a < data.len() implies (
                    #[trigger] pool.pending@[r2]).key@ != (#[trigger] data[a]).0 by {
                        let j = choose|j: int|
                            0 <= j < pend_mid.len() && pend_mid[j] == incomplete_rows(pend_mid)[r2];
                        let ne = data.len() - emitted.len();
                        if a < ne {
                            assert(pend_mid[j].key@ != data[a].0);
                        } else {
                            let ae = a - ne;
                            let ra = choose|r: int|
                                0 <= r < pend_mid.len() && pend_mid[r].complete() && emitted[ae]
                                    == row_model(pend_mid[r]);
                            if pend_mid[j].key@ == pend_mid[ra].key@ {
                                assert(j == ra);
                                assert(false);
                            }
                        }
                    }
                }
                // one more round has been taken
                assert forall|j: int| 0 <= j < n implies (#[trigger] producers@[j]).pos_view()
                    == (if sv[j].len() < rounds + 1 {
                    sv[j].len() as int
                } else {
                    rounds + 1
                }) && (pool.active@[j] <==> sv[j].len() >= rounds + 1) by {
                    assert(producers@[j].entries_view() == sv[j]);
                }
            }
            rounds = rounds + 1;
            proof {
                assert(wmid.is_prefix_of(warnings.reports()));
                assert forall|x: int| 0 <= x < w0.len() implies warnings.reports()[x] == w0[x] by {
                    assert(wmid[x] == w0[x]);
                }
                assert(w0.is_prefix_of(warnings.reports()));
            }
        }
    }
    let mut unresolved: Vec<String> = Vec::new();
    let mut ri: usize = 0;
    while ri < pool.pending.len()
        invariant
            ri <= pool.pending@.len(),
            unresolved@.len() == ri,
            forall|r: int| 0 <= r < ri ==> (#[trigger] unresolved@[r])@ == pool.pending@[r].key@,
        decreases pool.pending@.len() - ri,
    {
        unresolved.push(pool.pending[ri].key.clone());
        ri = ri + 1;
    }
    proof {
        let rows = output.rows();
        assert forall|r: int| 0 <= r < unresolved@.len() implies key_in_some(
            sv,
            (#[trigger] unresolved@[r])@,
        ) by {
            assert(pool.pending@[r].contributed());
            let i = choose|i: int|
                0 <= i < pool.pending@[r].values@.len() && (
                #[trigger] pool.pending@[r].values@[i]) is Some;
            assert(consumed_map(producers@[i]).contains_key(pool.pending@[r].key@));
            assert(producers@[i].consumed() == producers@[i].entries_view().subrange(
                0,
                producers@[i].pos_view(),
            ));
            lemma_stream_map_prefix_contains(
                producers@[i].entries_view(),
                producers@[i].pos_view(),
                pool.pending@[r].key@,
            );
            assert(stream_map(sv[i]).contains_key(unresolved@[r]@));
        }
        assert forall|r1: int, r2: int| 0 <= r1 < r2 < unresolved@.len() implies unresolved@[r1]@
            != unresolved@[r2]@ by {
            assert(pool.pending@[r1].key@ != pool.pending@[r2].key@);
        }
        assert(rows.subrange(0, base) =~= old(output).rows());
        assert(rows[base] == hdr);
        assert(rows.skip(base + 1) =~= data);
        assert forall|i: int| 0 <= i < n implies full_map(#[trigger] producers@[i]) == stream_map(
            sv[i],
        ) by {
            assert(producers@[i].entries_view() == sv[i]);
        }
        assert(data_keys_in_streams(sv, data)) by {
            assert forall|a: int, i: int|
                0 <= a < data.len() && 0 <= i < sv.len() implies stream_map(
                #[trigger] sv[i],
            ).contains_key((#[trigger] data[a]).0) by {
                assert(full_map(producers@[i]).contains_key(data[a].0));
                assert(full_map(producers@[i]) == stream_map(sv[i]));
            }
        }
        if status == RunStatus::Complete {
            assert forall|i: int| 0 <= i < n implies consumed_map(#[trigger] producers@[i])
                == full_map(producers@[i]) by {
                assert(!pool.active@[i]);
                assert(producers@[i].exhausted());
                assert(producers@[i].consumed() =~= producers@[i].entries_view());
            }
            // a key every source defines is always emitted, duplicates or not
            assert(emitted_keys_exact(sv, data)) by {
                assert forall|k: Seq<char>| rows_contain_key(data, k) implies key_in_all(
                    sv,
                    k,
                ) by {
                    let a = choose|a: int| 0 <= a < data.len() && (#[trigger] data[a]).0 == k;
                    assert forall|i2: int| 0 <= i2 < sv.len() implies stream_map(
                        #[trigger] sv[i2],
                    ).contains_key(k) by {
                        assert(full_map(producers@[i2]).contains_key(data[a].0));
                    }
                }
                assert forall|k: Seq<char>| key_in_all(sv, k) implies rows_contain_key(
                    data,
                    k,
                ) by {
                    if !rows_contain_key(data, k) {
                        assert(stream_map(sv[0]).contains_key(k));
                        assert(consumed_map(producers@[0]).contains_key(k));
                        assert(pool.has_key(k));
                        let r = choose|r: int|
                            0 <= r < pool.pending@.len() && (#[trigger] pool.pending@[r].key@)
                                == k;
                        assert forall|j: int|
                            0 <= j < n implies pool.pending@[r].values@[j] is Some by {
                            assert(stream_map(sv[j]).contains_key(k));
                            assert(consumed_map(producers@[j]).contains_key(k));
                        }
                        assert(pool.pending@[r].complete());
                        assert(false);
                    }
                }
            }
            assert forall|r: int|
                0 <= r < unresolved@.len() && key_in_all(
                    sv,
                    (#[trigger] unresolved@[r])@,
                ) implies rows_contain_key(data, unresolved@[r]@) by {
                assert(key_in_all(sv, unresolved@[r]@) ==> rows_contain_key(
                    data,
                    unresolved@[r]@,
                ));
            }
            if streams_distinct(sv) {
                assert(data_values_from_streams(sv, data)) by {
                    assert forall|a: int, i: int|
                        0 <= a < data.len() && 0 <= i < sv.len() implies (#[trigger] data[a]).1[i]
                        == stream_map(#[trigger] sv[i])[data[a].0] by {
                        assert(data[a].1[i] == full_map(producers@[i])[data[a].0]);
                        assert(full_map(producers@[i]) == stream_map(sv[i]));
                    }
                }
                assert(unresolved_exact(unresolved@, sv)) by {
                assert forall|k: Seq<char>|
                    (exists|r: int|
                        0 <= r < unresolved@.len() && (#[trigger] unresolved@[r])@ == k) <==> (
                key_in_some(sv, k) && !key_in_all(sv, k)) by {
                    if exists|r: int| 0 <= r < unresolved@.len() && (#[trigger] unresolved@[r])@
                        == k {
                        let r = choose|r: int|
                            0 <= r < unresolved@.len() && (#[trigger] unresolved@[r])@ == k;
                        assert(pool.pending@[r].key@ == k);
                        assert(pool.pending@[r].contributed());
                        let i = choose|i: int|
                            0 <= i < pool.pending@[r].values@.len() && (
                            #[trigger] pool.pending@[r].values@[i]) is Some;
                        assert(consumed_map(producers@[i]).contains_key(k));
                        assert(stream_map(sv[i]).contains_key(k));
                        assert(key_in_some(sv, k));
                        if key_in_all(sv, k) {
                            assert forall|i2: int|
                                0 <= i2 < n implies pool.pending@[r].values@[i2] is Some by {
                                assert(stream_map(sv[i2]).contains_key(k));
                                assert(consumed_map(producers@[i2]).contains_key(k));
                            }
                            assert(pool.pending@[r].complete());
                            assert(false);
                        }
                    }
                    if key_in_some(sv, k) && !key_in_all(sv, k) {
                        let i = choose|i: int|
                            0 <= i < sv.len() && stream_map(#[trigger] sv[i]).contains_key(k);
                        assert(consumed_map(producers@[i]).contains_key(k));
                        if rows_contain_key(data, k) {
                            let a = choose|a: int|
                                0 <= a < data.len() && (#[trigger] data[a]).0 == k;
                            assert forall|i2: int| 0 <= i2 < sv.len() implies stream_map(
                                #[trigger] sv[i2],
                            ).contains_key(k) by {
                                assert(full_map(producers@[i2]).contains_key(data[a].0));
                            }
                            assert(false);
                        }
                        assert(pool.has_key(k));
                        let r = choose|r: int|
                            0 <= r < pool.pending@.len() && (#[trigger] pool.pending@[r].key@) == k;
                        assert(unresolved@[r]@ == k);
                    }
                }
                }
            }
        }
    }
    MergeOutcome { status, unresolved }
}

} // verus!
