//! What holds of the store's queries and writes, whatever the store holds.

use crate::manager_db::models::{DataItem, MinMax, Row};
use crate::manager_db::{
    distinct, highest, history, holds, in_window, is_key_of, last_known, lemma_insert_keeps_invariant,
    lemma_position, lemma_rank, lemma_retained, lowest, min_max, observation, ordered, position,
    rank, retained, revised, two_window_min_max, upserted, window,
};
use crate::reading::Reading;
use crate::timestamps::SECONDS_PER_DAY;
use vstd::prelude::*;

verus! {

/// Every row that a test keeps is a row of the sequence, and passes the test.
pub proof fn lemma_kept_is_member(rows: Seq<Row>, keep: spec_fn(Row) -> bool, k: int)
    requires
        0 <= k < rows.filter(keep).len(),
    ensures
        keep(rows.filter(keep)[k]),
        exists|i: int| 0 <= i < rows.len() && #[trigger] rows[i] == rows.filter(keep)[k],
{
    let kept = rows.filter(keep);
    rows.lemma_filter_pred(keep, k);
    assert(kept.contains(kept[k]));
    rows.lemma_filter_contains_rev(keep, kept[k]);
    let i = choose|i: int| 0 <= i < rows.len() && rows[i] == kept[k];
    assert(rows[i] == kept[k]);
}

/// Where no row passes a test, the test keeps nothing.
pub proof fn lemma_none_kept(rows: Seq<Row>, keep: spec_fn(Row) -> bool)
    requires
        forall|i: int| 0 <= i < rows.len() ==> !keep(#[trigger] rows[i]),
    ensures
        rows.filter(keep).len() == 0,
{
    if rows.filter(keep).len() > 0 {
        lemma_kept_is_member(rows, keep, 0);
    }
}

/// In an ordered sequence, the last row that a test keeps is the latest row
/// that passes the test.
pub proof fn lemma_last_kept_is_latest(rows: Seq<Row>, keep: spec_fn(Row) -> bool)
    requires
        ordered(rows),
        rows.filter(keep).len() > 0,
    ensures
        keep(rows.filter(keep).last()),
        rows.contains(rows.filter(keep).last()),
        forall|i: int|
            0 <= i < rows.len() && keep(#[trigger] rows[i]) ==> rows[i].timestamp <= rows.filter(
                keep,
            ).last().timestamp,
    decreases rows.len(),
{
    reveal(Seq::filter);
    let latest = rows.filter(keep).last();
    if keep(rows.last()) {
        assert(latest == rows.last());
        assert(rows[rows.len() - 1] == latest);
        assert forall|i: int| 0 <= i < rows.len() && keep(#[trigger] rows[i]) implies rows[i].timestamp
            <= latest.timestamp by {
            if i < rows.len() - 1 {
                assert(rows[i].timestamp <= rows[rows.len() - 1].timestamp);
            }
        }
    } else {
        let front = rows.drop_last();
        assert(ordered(front)) by {
            assert forall|i: int, j: int| 0 <= i < j < front.len() implies (#[trigger] front[i]).timestamp
                <= (#[trigger] front[j]).timestamp by {
                assert(rows[i].timestamp <= rows[j].timestamp);
            }
        }
        lemma_last_kept_is_latest(front, keep);
        let at = choose|i: int| 0 <= i < front.len() && front[i] == latest;
        assert(rows[at] == latest);
        assert forall|i: int| 0 <= i < rows.len() && keep(#[trigger] rows[i]) implies rows[i].timestamp
            <= latest.timestamp by {
            assert(front[i] == rows[i]);
        }
    }
}

/// A source without rows has no data: its history is empty and its lowest
/// and highest temperature have no answer, whatever the window.
pub proof fn lemma_unknown_source_has_no_data(rows: Seq<Row>, source: Seq<char>, from: i64, to: i64)
    requires
        forall|i: int| 0 <= i < rows.len() ==> (#[trigger] rows[i]).source != source,
    ensures
        history(rows, source, from, to) == Seq::<DataItem<Reading>>::empty(),
        min_max(rows, source, from as int, to as int) is None,
{
    lemma_none_kept(rows, |row: Row| in_window(row, source, from as int, to as int));
    lemma_none_kept(rows, |row: Row| row.source == source);
}

/// A source with a row answers an empty window with exactly one point: its
/// most recent temperature, at the lower bound of the window.
pub proof fn lemma_empty_window_gives_last_known(
    rows: Seq<Row>,
    source: Seq<char>,
    from: i64,
    to: i64,
)
    requires
        ordered(rows),
        exists|i: int| 0 <= i < rows.len() && (#[trigger] rows[i]).source == source,
        window(rows, source, from as int, to as int).len() == 0,
    ensures
        last_known(rows, source) matches Some(latest) && {
            &&& latest.source == source
            &&& rows.contains(latest)
            &&& forall|i: int|
                0 <= i < rows.len() && (#[trigger] rows[i]).source == source ==> rows[i].timestamp
                    <= latest.timestamp
            &&& history(rows, source, from, to) == seq![DataItem { x: from, y: latest.temperature }]
            &&& min_max(rows, source, from as int, to as int) == Some(
                MinMax { min: latest.temperature, max: latest.temperature },
            )
        },
{
    let keep = |row: Row| row.source == source;
    let i = choose|i: int| 0 <= i < rows.len() && (#[trigger] rows[i]).source == source;
    rows.lemma_filter_contains(keep, i);
    lemma_last_kept_is_latest(rows, keep);
}

/// A window of an ordered store without double keys lists its rows by
/// strictly rising instants; each of them is a row of the source inside the
/// window, and no such row of the store is left out.
pub proof fn lemma_window_rises(rows: Seq<Row>, source: Seq<char>, from: int, to: int)
    requires
        ordered(rows),
        distinct(rows),
    ensures
        forall|i: int, j: int|
            #![trigger window(rows, source, from, to)[i], window(rows, source, from, to)[j]]
            0 <= i < j < window(rows, source, from, to).len() ==> window(
                rows,
                source,
                from,
                to,
            )[i].timestamp < window(rows, source, from, to)[j].timestamp,
        forall|k: int|
            0 <= k < window(rows, source, from, to).len() ==> in_window(
                #[trigger] window(rows, source, from, to)[k],
                source,
                from,
                to,
            ),
        forall|i: int|
            0 <= i < rows.len() && in_window(#[trigger] rows[i], source, from, to) ==> window(
                rows,
                source,
                from,
                to,
            ).contains(rows[i]),
    decreases rows.len(),
{
    reveal(Seq::filter);
    let keep = |row: Row| in_window(row, source, from, to);
    let inside = rows.filter(keep);
    assert forall|k: int| 0 <= k < inside.len() implies in_window(#[trigger] inside[k], source, from, to) by {
        lemma_kept_is_member(rows, keep, k);
    }
    assert forall|i: int| 0 <= i < rows.len() && in_window(#[trigger] rows[i], source, from, to)
        implies inside.contains(rows[i]) by {
        rows.lemma_filter_contains(keep, i);
    }
    if rows.len() > 0 {
        let front = rows.drop_last();
        assert(ordered(front) && distinct(front)) by {
            assert forall|i: int, j: int| 0 <= i < j < front.len() implies (#[trigger] front[i]).timestamp
                <= (#[trigger] front[j]).timestamp by {
                assert(rows[i].timestamp <= rows[j].timestamp);
            }
            assert forall|i: int, j: int| 0 <= i < j < front.len() implies !is_key_of(
                #[trigger] front[i],
                (#[trigger] front[j]).source,
                front[j].timestamp as int,
            ) by {
                assert(!is_key_of(rows[i], rows[j].source, rows[j].timestamp as int));
            }
        }
        lemma_window_rises(front, source, from, to);
        if keep(rows.last()) {
            let before = front.filter(keep);
            assert(inside == before.push(rows.last()));
            assert forall|i: int, j: int| 0 <= i < j < inside.len() implies (#[trigger] inside[i]).timestamp
                < (#[trigger] inside[j]).timestamp by {
                if j < before.len() {
                    assert(before[i].timestamp < before[j].timestamp);
                } else {
                    lemma_kept_is_member(front, keep, i);
                    let at = choose|at: int| 0 <= at < front.len() && #[trigger] front[at] == before[i];
                    assert(rows[at].timestamp <= rows[rows.len() - 1].timestamp);
                    assert(!is_key_of(
                        rows[at],
                        rows[rows.len() - 1].source,
                        rows[rows.len() - 1].timestamp as int,
                    ));
                }
            }
        } else {
            assert(inside == front.filter(keep));
        }
    }
}

/// The lowest temperature of some rows is the temperature of one of them,
/// and none of them is colder; likewise the highest.
pub proof fn lemma_extremes(rows: Seq<Row>)
    requires
        rows.len() > 0,
    ensures
        exists|i: int| 0 <= i < rows.len() && (#[trigger] rows[i]).temperature == lowest(rows),
        exists|i: int| 0 <= i < rows.len() && (#[trigger] rows[i]).temperature == highest(rows),
        forall|i: int| 0 <= i < rows.len() ==> lowest(rows)@ <= (#[trigger] rows[i]).temperature@,
        forall|i: int| 0 <= i < rows.len() ==> highest(rows)@ >= (#[trigger] rows[i]).temperature@,
    decreases rows.len(),
{
    if rows.len() == 1 {
        assert(rows[0].temperature == lowest(rows));
        assert(rows[0].temperature == highest(rows));
    } else {
        let front = rows.drop_last();
        lemma_extremes(front);
        let low = choose|i: int| 0 <= i < front.len() && (#[trigger] front[i]).temperature == lowest(front);
        let high = choose|i: int|
            0 <= i < front.len() && (#[trigger] front[i]).temperature == highest(front);
        assert(rows[low] == front[low] && rows[high] == front[high]);
        assert(rows[rows.len() - 1] == rows.last());
        if rows.last().temperature@ < lowest(front)@ {
            assert(rows[rows.len() - 1].temperature == lowest(rows));
        } else {
            assert(rows[low].temperature == lowest(rows));
        }
        if rows.last().temperature@ > highest(front)@ {
            assert(rows[rows.len() - 1].temperature == highest(rows));
        } else {
            assert(rows[high].temperature == highest(rows));
        }
        assert forall|i: int| 0 <= i < rows.len() implies lowest(rows)@ <= (#[trigger] rows[i]).temperature@
            && highest(rows)@ >= rows[i].temperature@ by {
            if i < front.len() {
                assert(front[i] == rows[i]);
            }
        }
    }
}

/// The lowest and highest temperature over two windows one day apart are
/// those of two separate queries, one for each window, where each window
/// holds a row.
pub proof fn lemma_two_windows_are_two_queries(rows: Seq<Row>, source: Seq<char>, from: int, to: int)
    requires
        window(rows, source, from, to).len() > 0,
        window(rows, source, from - SECONDS_PER_DAY, to - SECONDS_PER_DAY).len() > 0,
    ensures
        min_max(rows, source, from, to) == Some(
            MinMax {
                min: two_window_min_max(rows, source, from, to).today_min,
                max: two_window_min_max(rows, source, from, to).today_max,
            },
        ),
        min_max(rows, source, from - SECONDS_PER_DAY, to - SECONDS_PER_DAY) == Some(
            MinMax {
                min: two_window_min_max(rows, source, from, to).yesterday_min,
                max: two_window_min_max(rows, source, from, to).yesterday_max,
            },
        ),
{
}

/// An empty window gives zero for both of its values in the query over two
/// windows, whatever the other window or the rest of the store holds.
pub proof fn lemma_empty_window_counts_as_zero(rows: Seq<Row>, source: Seq<char>, from: int, to: int)
    ensures
        window(rows, source, from, to).len() == 0 ==> {
            &&& two_window_min_max(rows, source, from, to).today_min == Reading::nought()
            &&& two_window_min_max(rows, source, from, to).today_max == Reading::nought()
        },
        window(rows, source, from - SECONDS_PER_DAY, to - SECONDS_PER_DAY).len() == 0 ==> {
            &&& two_window_min_max(rows, source, from, to).yesterday_min == Reading::nought()
            &&& two_window_min_max(rows, source, from, to).yesterday_max == Reading::nought()
        },
{
}

/// In an ordered store the rank of an instant splits the rows: the rows
/// before it are not later than the instant, the rows from it on are later.
pub proof fn lemma_rank_splits(rows: Seq<Row>, timestamp: int)
    requires
        ordered(rows),
    ensures
        0 <= rank(rows, timestamp) <= rows.len(),
        forall|j: int| 0 <= j < rank(rows, timestamp) ==> (#[trigger] rows[j]).timestamp <= timestamp,
        forall|j: int|
            rank(rows, timestamp) <= j < rows.len() ==> (#[trigger] rows[j]).timestamp > timestamp,
    decreases rows.len(),
{
    reveal(Seq::filter);
    if rows.len() > 0 {
        if rows.last().timestamp <= timestamp {
            assert forall|j: int| 0 <= j < rows.len() implies (#[trigger] rows[j]).timestamp
                <= timestamp by {
                if j < rows.len() - 1 {
                    assert(rows[j].timestamp <= rows[rows.len() - 1].timestamp);
                }
            }
            lemma_rank(rows, timestamp, rows.len() as int);
        } else {
            let front = rows.drop_last();
            assert(ordered(front)) by {
                assert forall|i: int, j: int| 0 <= i < j < front.len() implies (#[trigger] front[i]).timestamp
                    <= (#[trigger] front[j]).timestamp by {
                    assert(rows[i].timestamp <= rows[j].timestamp);
                }
            }
            lemma_rank_splits(front, timestamp);
            assert(rank(rows, timestamp) == rank(front, timestamp));
            assert forall|j: int| 0 <= j < rank(rows, timestamp) implies (#[trigger] rows[j]).timestamp
                <= timestamp by {
                assert(front[j] == rows[j]);
            }
            assert forall|j: int| rank(rows, timestamp) <= j < rows.len() implies (#[trigger] rows[j]).timestamp
                > timestamp by {
                if j < front.len() {
                    assert(front[j] == rows[j]);
                }
            }
        }
    }
}

/// A store without double keys holds exactly one row for a key that it
/// holds, and none for a key that it does not hold.
pub proof fn lemma_one_row_per_key(rows: Seq<Row>, source: Seq<char>, timestamp: int)
    requires
        distinct(rows),
    ensures
        holds(rows, source, timestamp) ==> window(rows, source, timestamp, timestamp + 1).len() == 1,
        !holds(rows, source, timestamp) ==> window(rows, source, timestamp, timestamp + 1).len() == 0,
    decreases rows.len(),
{
    reveal(Seq::filter);
    let keep = |row: Row| in_window(row, source, timestamp, timestamp + 1);
    if rows.len() > 0 {
        let front = rows.drop_last();
        let end = rows.len() - 1;
        assert(distinct(front)) by {
            assert forall|i: int, j: int| 0 <= i < j < front.len() implies !is_key_of(
                #[trigger] front[i],
                (#[trigger] front[j]).source,
                front[j].timestamp as int,
            ) by {
                assert(!is_key_of(rows[i], rows[j].source, rows[j].timestamp as int));
            }
        }
        lemma_one_row_per_key(front, source, timestamp);
        if keep(rows.last()) {
            assert(is_key_of(rows[end], source, timestamp));
            if holds(front, source, timestamp) {
                let i = choose|i: int|
                    0 <= i < front.len() && is_key_of(#[trigger] front[i], source, timestamp);
                assert(!is_key_of(rows[i], rows[end].source, rows[end].timestamp as int));
            }
        } else {
            if holds(rows, source, timestamp) {
                let i = choose|i: int|
                    0 <= i < rows.len() && is_key_of(#[trigger] rows[i], source, timestamp);
                assert(is_key_of(front[i], source, timestamp));
            }
            if holds(front, source, timestamp) {
                let i = choose|i: int|
                    0 <= i < front.len() && is_key_of(#[trigger] front[i], source, timestamp);
                assert(is_key_of(rows[i], source, timestamp));
            }
        }
    }
}

/// A forecast leaves the store ordered and without double keys, and the
/// store then holds a row for the forecast's source and instant with the
/// forecast's values.
pub proof fn lemma_forecast_enters(
    rows: Seq<Row>,
    source: Seq<char>,
    timestamp: i64,
    temperature: Reading,
    wind_speed: Option<Reading>,
    humidity: Option<u8>,
    lcc_mean: Option<u8>,
    mcc_mean: Option<u8>,
    hcc_mean: Option<u8>,
)
    requires
        ordered(rows),
        distinct(rows),
    ensures
        ({
            let after = upserted(
                rows,
                source,
                timestamp,
                temperature,
                wind_speed,
                humidity,
                lcc_mean,
                mcc_mean,
                hcc_mean,
            );
            let at = position(after, source, timestamp as int);
            &&& ordered(after)
            &&& distinct(after)
            &&& holds(after, source, timestamp as int)
            &&& 0 <= at < after.len()
            &&& after[at] == revised(
                after[at],
                temperature,
                wind_speed,
                humidity,
                lcc_mean,
                mcc_mean,
                hcc_mean,
            )
            &&& after[at].source == source
            &&& after[at].timestamp == timestamp
            &&& if holds(rows, source, timestamp as int) {
                &&& after.len() == rows.len()
                &&& at == position(rows, source, timestamp as int)
                &&& after[at].perceived_temperature == rows[at].perceived_temperature
            } else {
                &&& after.len() == rows.len() + 1
                &&& at == rank(rows, timestamp as int)
                &&& after[at].perceived_temperature is None
            }
        }),
{
    let after = upserted(
        rows,
        source,
        timestamp,
        temperature,
        wind_speed,
        humidity,
        lcc_mean,
        mcc_mean,
        hcc_mean,
    );
    if holds(rows, source, timestamp as int) {
        let at = position(rows, source, timestamp as int);
        assert(0 <= at < rows.len() && is_key_of(rows[at], source, timestamp as int));
        assert forall|i: int, j: int| 0 <= i < j < after.len() implies (#[trigger] after[i]).timestamp
            <= (#[trigger] after[j]).timestamp by {
            assert(rows[i].timestamp <= rows[j].timestamp);
        }
        assert forall|i: int, j: int| 0 <= i < j < after.len() implies !is_key_of(
            #[trigger] after[i],
            (#[trigger] after[j]).source,
            after[j].timestamp as int,
        ) by {
            assert(!is_key_of(rows[i], rows[j].source, rows[j].timestamp as int));
        }
        assert(is_key_of(after[at], source, timestamp as int));
        lemma_position(after, source, timestamp as int, at);
    } else {
        let at = rank(rows, timestamp as int);
        lemma_rank_splits(rows, timestamp as int);
        lemma_insert_keeps_invariant(rows, at, after[at]);
        assert(is_key_of(after[at], source, timestamp as int));
        lemma_position(after, source, timestamp as int, at);
    }
}

/// Two forecasts for one source and instant leave what the second alone
/// would have left: exactly one row for that source and instant, with the
/// values of the second forecast.
pub proof fn lemma_second_forecast_replaces_first(
    rows: Seq<Row>,
    source: Seq<char>,
    timestamp: i64,
    first: Row,
    second: Row,
)
    requires
        ordered(rows),
        distinct(rows),
    ensures
        ({
            let once = upserted(
                rows,
                source,
                timestamp,
                first.temperature,
                first.wind_speed,
                first.humidity,
                first.lcc_mean,
                first.mcc_mean,
                first.hcc_mean,
            );
            let twice = upserted(
                once,
                source,
                timestamp,
                second.temperature,
                second.wind_speed,
                second.humidity,
                second.lcc_mean,
                second.mcc_mean,
                second.hcc_mean,
            );
            let at = position(twice, source, timestamp as int);
            &&& twice == upserted(
                rows,
                source,
                timestamp,
                second.temperature,
                second.wind_speed,
                second.humidity,
                second.lcc_mean,
                second.mcc_mean,
                second.hcc_mean,
            )
            &&& twice.len() == once.len()
            &&& window(twice, source, timestamp as int, timestamp + 1).len() == 1
            &&& window(twice, source, timestamp as int, timestamp + 1)[0] == twice[at]
            &&& twice[at].temperature == second.temperature
            &&& twice[at].wind_speed == second.wind_speed
            &&& twice[at].humidity == second.humidity
            &&& twice[at].lcc_mean == second.lcc_mean
            &&& twice[at].mcc_mean == second.mcc_mean
            &&& twice[at].hcc_mean == second.hcc_mean
        }),
{
    let once = upserted(
        rows,
        source,
        timestamp,
        first.temperature,
        first.wind_speed,
        first.humidity,
        first.lcc_mean,
        first.mcc_mean,
        first.hcc_mean,
    );
    let twice = upserted(
        once,
        source,
        timestamp,
        second.temperature,
        second.wind_speed,
        second.humidity,
        second.lcc_mean,
        second.mcc_mean,
        second.hcc_mean,
    );
    lemma_forecast_enters(
        rows,
        source,
        timestamp,
        first.temperature,
        first.wind_speed,
        first.humidity,
        first.lcc_mean,
        first.mcc_mean,
        first.hcc_mean,
    );
    lemma_forecast_enters(
        once,
        source,
        timestamp,
        second.temperature,
        second.wind_speed,
        second.humidity,
        second.lcc_mean,
        second.mcc_mean,
        second.hcc_mean,
    );
    let alone = upserted(
        rows,
        source,
        timestamp,
        second.temperature,
        second.wind_speed,
        second.humidity,
        second.lcc_mean,
        second.mcc_mean,
        second.hcc_mean,
    );
    assert(twice =~= alone);
    lemma_one_row_per_key(twice, source, timestamp as int);
    let inside = window(twice, source, timestamp as int, timestamp + 1);
    lemma_kept_is_member(twice, |row: Row| in_window(row, source, timestamp as int, timestamp + 1), 0);
    let i = choose|i: int| 0 <= i < twice.len() && #[trigger] twice[i] == inside[0];
    lemma_position(twice, source, timestamp as int, i);
}

/// A test keeps of a single row the row itself or nothing.
pub proof fn lemma_kept_of_one(row: Row, keep: spec_fn(Row) -> bool)
    ensures
        seq![row].filter(keep) == if keep(row) {
            seq![row]
        } else {
            Seq::<Row>::empty()
        },
{
    reveal(Seq::filter);
    assert(seq![row].drop_last() =~= Seq::<Row>::empty());
    assert(Seq::<Row>::empty().filter(keep) =~= Seq::<Row>::empty());
    assert(Seq::<Row>::empty().push(row) =~= seq![row]);
}

/// What a test keeps of a sequence with one more row: the row enters what
/// was kept, behind what was kept of the rows before it, where it passes
/// the test, and nothing changes where it does not.
pub proof fn lemma_kept_after_insert(rows: Seq<Row>, at: int, row: Row, keep: spec_fn(Row) -> bool)
    requires
        0 <= at <= rows.len(),
    ensures
        rows.insert(at, row).filter(keep) == if keep(row) {
            rows.filter(keep).insert(rows.take(at).filter(keep).len() as int, row)
        } else {
            rows.filter(keep)
        },
{
    let front = rows.take(at);
    let back = rows.skip(at);
    assert(rows =~= front + back);
    assert(rows.insert(at, row) =~= (front + seq![row]) + back);
    Seq::filter_distributes_over_add(front, back, keep);
    Seq::filter_distributes_over_add(front + seq![row], back, keep);
    Seq::filter_distributes_over_add(front, seq![row], keep);
    lemma_kept_of_one(row, keep);
    if keep(row) {
        assert((front.filter(keep) + seq![row]) + back.filter(keep) =~= (front.filter(keep)
            + back.filter(keep)).insert(front.filter(keep).len() as int, row));
    } else {
        assert(front.filter(keep) + Seq::<Row>::empty() =~= front.filter(keep));
    }
}

/// What a test keeps of a sequence does not change where one row that fails
/// the test gives way to another that fails it.
pub proof fn lemma_kept_after_update(rows: Seq<Row>, at: int, row: Row, keep: spec_fn(Row) -> bool)
    requires
        0 <= at < rows.len(),
        !keep(rows[at]),
        !keep(row),
    ensures
        rows.update(at, row).filter(keep) == rows.filter(keep),
{
    let front = rows.take(at);
    let back = rows.skip(at + 1);
    assert(rows =~= (front + seq![rows[at]]) + back);
    assert(rows.update(at, row) =~= (front + seq![row]) + back);
    Seq::filter_distributes_over_add(front + seq![rows[at]], back, keep);
    Seq::filter_distributes_over_add(front + seq![row], back, keep);
    Seq::filter_distributes_over_add(front, seq![rows[at]], keep);
    Seq::filter_distributes_over_add(front, seq![row], keep);
    lemma_kept_of_one(rows[at], keep);
    lemma_kept_of_one(row, keep);
}

/// An observation that the store takes is the one new row of every window
/// that holds its source and instant, and changes no other window.
pub proof fn lemma_observation_is_read_back(
    rows: Seq<Row>,
    source: Seq<char>,
    timestamp: i64,
    temperature: Reading,
    humidity: Option<u8>,
    perceived_temperature: Option<Reading>,
    of: Seq<char>,
    from: int,
    to: int,
)
    requires
        ordered(rows),
    ensures
        ({
            let row = observation(source, timestamp, temperature, humidity, perceived_temperature);
            let after = rows.insert(rank(rows, timestamp as int), row);
            if in_window(row, of, from, to) {
                &&& window(after, of, from, to).len() == window(rows, of, from, to).len() + 1
                &&& window(after, of, from, to).contains(row)
            } else {
                window(after, of, from, to) == window(rows, of, from, to)
            }
        }),
{
    let row = observation(source, timestamp, temperature, humidity, perceived_temperature);
    let keep = |row: Row| in_window(row, of, from, to);
    let at = rank(rows, timestamp as int);
    lemma_rank_splits(rows, timestamp as int);
    lemma_kept_after_insert(rows, at, row, keep);
    if keep(row) {
        let slot = rows.take(at).filter(keep).len() as int;
        rows.take(at).lemma_filter_len(keep);
        assert(rows =~= rows.take(at) + rows.skip(at));
        Seq::filter_distributes_over_add(rows.take(at), rows.skip(at), keep);
        assert(rows.filter(keep).insert(slot, row)[slot] == row);
    }
}

/// A forecast changes no window that does not hold its source and instant.
pub proof fn lemma_forecast_leaves_other_windows(
    rows: Seq<Row>,
    source: Seq<char>,
    timestamp: i64,
    forecast: Row,
    of: Seq<char>,
    from: int,
    to: int,
)
    requires
        ordered(rows),
        !(of == source && from <= timestamp < to),
    ensures
        window(
            upserted(
                rows,
                source,
                timestamp,
                forecast.temperature,
                forecast.wind_speed,
                forecast.humidity,
                forecast.lcc_mean,
                forecast.mcc_mean,
                forecast.hcc_mean,
            ),
            of,
            from,
            to,
        ) == window(rows, of, from, to),
{
    let keep = |row: Row| in_window(row, of, from, to);
    let after = upserted(
        rows,
        source,
        timestamp,
        forecast.temperature,
        forecast.wind_speed,
        forecast.humidity,
        forecast.lcc_mean,
        forecast.mcc_mean,
        forecast.hcc_mean,
    );
    if holds(rows, source, timestamp as int) {
        let at = position(rows, source, timestamp as int);
        assert(0 <= at < rows.len() && is_key_of(rows[at], source, timestamp as int));
        lemma_kept_after_update(rows, at, after[at], keep);
    } else {
        let at = rank(rows, timestamp as int);
        lemma_rank_splits(rows, timestamp as int);
        lemma_kept_after_insert(rows, at, after[at], keep);
    }
}

/// Truncation changes no window that begins at the cutoff or later.
pub proof fn lemma_truncation_leaves_later_windows(
    rows: Seq<Row>,
    cutoff: int,
    source: Seq<char>,
    from: int,
    to: int,
)
    requires
        cutoff <= from,
    ensures
        window(retained(rows, cutoff), source, from, to) == window(rows, source, from, to),
    decreases rows.len(),
{
    reveal(Seq::filter);
    let keep = |row: Row| in_window(row, source, from, to);
    let young = |row: Row| row.timestamp >= cutoff;
    if rows.len() > 0 {
        let front = rows.drop_last();
        lemma_truncation_leaves_later_windows(front, cutoff, source, from, to);
        if young(rows.last()) {
            front.filter(young).lemma_filter_push(rows.last(), keep);
        }
    }
}

/// Truncation keeps exactly the rows that are not older than the cutoff, in
/// their order, and leaves the store ordered and without double keys.
pub proof fn lemma_truncation_keeps_the_young(rows: Seq<Row>, cutoff: int)
    requires
        ordered(rows),
        distinct(rows),
    ensures
        ordered(retained(rows, cutoff)),
        distinct(retained(rows, cutoff)),
        forall|k: int|
            0 <= k < retained(rows, cutoff).len() ==> (#[trigger] retained(rows, cutoff)[k]).timestamp
                >= cutoff && rows.contains(retained(rows, cutoff)[k]),
        forall|i: int|
            0 <= i < rows.len() && (#[trigger] rows[i]).timestamp >= cutoff ==> retained(
                rows,
                cutoff,
            ).contains(rows[i]),
{
    let young = |row: Row| row.timestamp >= cutoff;
    let kept = rows.filter(young);
    lemma_rank_splits(rows, cutoff - 1);
    let at = rank(rows, cutoff - 1);
    lemma_retained(rows, cutoff, at);
    assert forall|k: int| 0 <= k < kept.len() implies (#[trigger] kept[k]).timestamp >= cutoff
        && rows.contains(kept[k]) by {
        lemma_kept_is_member(rows, young, k);
    }
    assert forall|i: int| 0 <= i < rows.len() && (#[trigger] rows[i]).timestamp >= cutoff implies kept.contains(
        rows[i],
    ) by {
        rows.lemma_filter_contains(young, i);
    }
}

/// The store after a forecast that is given as the row it asks for: the
/// source, the instant and the values of the forecast.
pub open spec fn with_forecast(rows: Seq<Row>, forecast: Row) -> Seq<Row> {
    upserted(
        rows,
        forecast.source,
        forecast.timestamp,
        forecast.temperature,
        forecast.wind_speed,
        forecast.humidity,
        forecast.lcc_mean,
        forecast.mcc_mean,
        forecast.hcc_mean,
    )
}

/// What a forecast does to the row and the place of another instant: the
/// store holds that instant's row as before, one place further back where a
/// new row entered before it; and the rank of that instant grows by one
/// where a new row entered for an earlier instant.
pub proof fn lemma_forecast_and_another_instant(
    rows: Seq<Row>,
    forecast: Row,
    source: Seq<char>,
    timestamp: int,
)
    requires
        ordered(rows),
        distinct(rows),
        timestamp != forecast.timestamp,
    ensures
        ({
            let after = with_forecast(rows, forecast);
            let entered = !holds(rows, forecast.source, forecast.timestamp as int);
            let place = rank(rows, forecast.timestamp as int);
            &&& holds(after, source, timestamp) == holds(rows, source, timestamp)
            &&& holds(rows, source, timestamp) ==> {
                let at = position(rows, source, timestamp);
                &&& 0 <= at < rows.len()
                &&& position(after, source, timestamp) == if entered && place <= at {
                    at + 1
                } else {
                    at
                }
                &&& after[position(after, source, timestamp)] == rows[at]
            }
            &&& rank(after, timestamp) == if entered && forecast.timestamp < timestamp {
                rank(rows, timestamp) + 1
            } else {
                rank(rows, timestamp)
            }
            &&& entered ==> (forecast.timestamp < timestamp ==> place <= rank(rows, timestamp))
            &&& entered ==> (forecast.timestamp > timestamp ==> place >= rank(rows, timestamp))
        }),
{
    let after = with_forecast(rows, forecast);
    let entered = !holds(rows, forecast.source, forecast.timestamp as int);
    let place = rank(rows, forecast.timestamp as int);
    let split = rank(rows, timestamp);
    lemma_forecast_enters(
        rows,
        forecast.source,
        forecast.timestamp,
        forecast.temperature,
        forecast.wind_speed,
        forecast.humidity,
        forecast.lcc_mean,
        forecast.mcc_mean,
        forecast.hcc_mean,
    );
    lemma_rank_splits(rows, forecast.timestamp as int);
    lemma_rank_splits(rows, timestamp);
    let own = position(after, forecast.source, forecast.timestamp as int);
    if entered {
        assert(after == rows.insert(place, after[place]));
        if forecast.timestamp < timestamp && place > split {
            assert(rows[split].timestamp <= forecast.timestamp);
        }
        if forecast.timestamp > timestamp && place < split {
            assert(rows[place].timestamp <= timestamp);
        }
    } else {
        assert(after == rows.update(own, after[own]));
    }
    if holds(rows, source, timestamp) {
        let at = position(rows, source, timestamp);
        assert(0 <= at < rows.len() && is_key_of(rows[at], source, timestamp));
        let moved = if entered && place <= at {
            at + 1
        } else {
            at
        };
        assert(after[moved] == rows[at]);
        lemma_position(after, source, timestamp, moved);
    } else if holds(after, source, timestamp) {
        let at = position(after, source, timestamp);
        assert(0 <= at < after.len() && is_key_of(after[at], source, timestamp));
        let back = if entered && place < at {
            at - 1
        } else {
            at
        };
        assert(at != own);
        assert(is_key_of(rows[back], source, timestamp));
    }
    let grown = if entered && forecast.timestamp < timestamp {
        split + 1
    } else {
        split
    };
    assert forall|j: int| 0 <= j < grown implies (#[trigger] after[j]).timestamp <= timestamp by {
        if entered {
            if j < place {
                assert(after[j] == rows[j]);
            } else if j > place {
                assert(after[j] == rows[j - 1]);
            }
        } else if j != own {
            assert(after[j] == rows[j]);
        } else {
            assert(after[j].timestamp == rows[j].timestamp);
        }
    }
    assert forall|j: int| grown <= j < after.len() implies (#[trigger] after[j]).timestamp
        > timestamp by {
        if entered {
            if j < place {
                assert(after[j] == rows[j]);
            } else if j > place {
                assert(after[j] == rows[j - 1]);
            }
        } else if j != own {
            assert(after[j] == rows[j]);
        } else {
            assert(after[j].timestamp == rows[j].timestamp);
        }
    }
    lemma_rank(after, timestamp, grown);
}

/// Two forecasts for different instants leave the same store in either
/// order.
pub proof fn lemma_forecasts_commute(rows: Seq<Row>, first: Row, second: Row)
    requires
        ordered(rows),
        distinct(rows),
        first.timestamp != second.timestamp,
    ensures
        with_forecast(with_forecast(rows, first), second) == with_forecast(
            with_forecast(rows, second),
            first,
        ),
{
    let one = with_forecast(rows, first);
    let other = with_forecast(rows, second);
    lemma_forecast_enters(
        rows,
        first.source,
        first.timestamp,
        first.temperature,
        first.wind_speed,
        first.humidity,
        first.lcc_mean,
        first.mcc_mean,
        first.hcc_mean,
    );
    lemma_forecast_enters(
        rows,
        second.source,
        second.timestamp,
        second.temperature,
        second.wind_speed,
        second.humidity,
        second.lcc_mean,
        second.mcc_mean,
        second.hcc_mean,
    );
    lemma_forecast_and_another_instant(rows, first, second.source, second.timestamp as int);
    lemma_forecast_and_another_instant(rows, second, first.source, first.timestamp as int);
    assert(with_forecast(one, second) =~= with_forecast(other, first));
}

} // verus!
