//! What decoding keeps: the text, and which kinds format each code unit.

use crate::decode::{
    bounded, decoded, entity_ranges, later, lemma_sweep_order_bounded, lemma_sweep_order_same,
    merged, opens_before, piece_run, piece_runs, pieces, range_of, stack_kinds, sweep, sweep_order,
    within, EntityView, Piece, RangeView,
};
use crate::encode::{covers, kind_at, lemma_run_start, run_start};
use crate::kind::KindView;
use crate::segments::{flatten, SegmentView};
use crate::text::{
    breaks_pair, char_units, decode_lossy, is_high_surrogate, is_low_surrogate,
    lemma_char_units, lemma_decode_concat, lemma_decode_encoded, lemma_decode_keeps_len,
    lemma_units_concat, lemma_units_len, unit_len, utf16_len, utf16_units,
};
use vstd::prelude::*;

verus! {

/// Offset, in code units, at which character `i` of the text starts.
pub open spec fn unit_offset(text: Seq<char>, i: int) -> int {
    utf16_len(text.take(i)) as int
}

/// Whether `p` is an offset at which a character starts, or the end of the
/// text: a place that cuts no surrogate pair.
pub open spec fn on_boundary(text: Seq<char>, p: int) -> bool {
    exists|i: int| 0 <= i <= text.len() && unit_offset(text, i) == p
}

/// Every range starts and ends where a character starts or the text ends.
pub open spec fn aligned(text: Seq<char>, entities: Seq<EntityView>) -> bool {
    forall|i: int|
        0 <= i < entities.len() ==> on_boundary(text, (#[trigger] entities[i]).offset as int)
            && on_boundary(text, (entities[i].offset + entities[i].length) as int)
}

/// A later character starts at a later offset.
pub proof fn lemma_unit_offset_grows(text: Seq<char>, i: int, j: int)
    requires
        0 <= i <= j <= text.len(),
    ensures
        unit_offset(text, i) + (j - i) <= unit_offset(text, j),
        unit_offset(text, 0) == 0,
        unit_offset(text, text.len() as int) == utf16_len(text),
    decreases j - i,
{
    assert(text.take(0) =~= Seq::<char>::empty());
    assert(text.take(text.len() as int) =~= text);
    if i < j {
        lemma_unit_offset_grows(text, i, j - 1);
        assert(text.take(j) =~= text.take(j - 1) + seq![text[j - 1]]);
        lemma_units_concat(text.take(j - 1), seq![text[j - 1]]);
        assert(seq![text[j - 1]].skip(1) =~= Seq::<char>::empty());
        assert(utf16_len(seq![text[j - 1]]) >= 1);
    }
}

/// The code units between the starts of two characters encode the
/// characters between them.
pub proof fn lemma_units_between(text: Seq<char>, i: int, j: int)
    requires
        0 <= i <= j <= text.len(),
    ensures
        utf16_units(text).subrange(unit_offset(text, i), unit_offset(text, j)) == utf16_units(
            text.subrange(i, j),
        ),
        0 <= unit_offset(text, i) <= unit_offset(text, j) <= utf16_units(text).len(),
{
    let a = text.take(i);
    let b = text.subrange(i, j);
    let c = text.skip(j);
    assert(text =~= a + b + c);
    assert(text.take(j) =~= a + b);
    lemma_units_concat(a, b);
    lemma_units_concat(a + b, c);
    lemma_units_len(a);
    lemma_units_len(a + b);
    lemma_units_len(text);
    lemma_units_len(c);
    assert(utf16_units(text) == utf16_units(a) + utf16_units(b) + utf16_units(c));
    assert((utf16_units(a) + utf16_units(b) + utf16_units(c)).subrange(
        utf16_units(a).len() as int,
        (utf16_units(a).len() + utf16_units(b).len()) as int,
    ) =~= utf16_units(b));
}

/// Decoding two stretches that meet where a character starts gives what
/// decoding them as one stretch gives.
pub proof fn lemma_decode_split(text: Seq<char>, a: int, b: int, c: int)
    requires
        a <= b <= c,
        on_boundary(text, a),
        on_boundary(text, b),
        on_boundary(text, c),
    ensures
        decode_lossy(utf16_units(text).subrange(a, b)) + decode_lossy(
            utf16_units(text).subrange(b, c),
        ) == decode_lossy(utf16_units(text).subrange(a, c)),
{
    let i = choose|i: int| 0 <= i <= text.len() && unit_offset(text, i) == a;
    let j = choose|j: int| 0 <= j <= text.len() && unit_offset(text, j) == b;
    let k = choose|k: int| 0 <= k <= text.len() && unit_offset(text, k) == c;
    // a later offset belongs to a later character
    if j < i {
        lemma_unit_offset_grows(text, j, i);
    }
    if k < j {
        lemma_unit_offset_grows(text, k, j);
    }
    lemma_units_between(text, i, j);
    lemma_units_between(text, j, k);
    lemma_units_between(text, i, k);
    lemma_decode_encoded(text.subrange(i, j));
    lemma_decode_encoded(text.subrange(j, k));
    lemma_decode_encoded(text.subrange(i, k));
    assert(text.subrange(i, j) + text.subrange(j, k) =~= text.subrange(i, k));
}

/// The pieces follow one another from `from` to `to` without gap, and none
/// is empty.
pub open spec fn joined(ps: Seq<Piece>, from: int, to: int) -> bool {
    &&& from <= to
    &&& ps.len() == 0 ==> from == to
    &&& ps.len() > 0 ==> ps[0].start == from && ps.last().end == to
    &&& forall|j: int| 0 <= j < ps.len() ==> (#[trigger] ps[j]).start < ps[j].end
    &&& forall|j: int| 0 <= j < ps.len() - 1 ==> (#[trigger] ps[j]).end == ps[j + 1].start
}

/// One piece before joined pieces makes joined pieces.
proof fn lemma_joined_front(p: Piece, rest: Seq<Piece>, to: int)
    requires
        p.start < p.end,
        joined(rest, p.end, to),
    ensures
        joined(seq![p] + rest, p.start, to),
{
    let all = seq![p] + rest;
    assert(all[0] == p);
    assert forall|j: int| 0 <= j < all.len() implies (#[trigger] all[j]).start < all[j].end by {
        if j > 0 {
            assert(all[j] == rest[j - 1]);
        }
    }
    assert forall|j: int| 0 <= j < all.len() - 1 implies (#[trigger] all[j]).end == all[j
        + 1].start by {
        assert(all[j + 1] == rest[j]);
        if j > 0 {
            assert(all[j] == rest[j - 1]);
        }
    }
    if rest.len() > 0 {
        assert(all.last() == rest.last());
    }
}

/// The state of a sweep over a text of `len` code units: the bottom of the
/// stack is the whole text, and nothing reaches behind the end of the text.
pub open spec fn sweeping(ranges: Seq<RangeView>, stack: Seq<RangeView>, cursor: int, len: int) -> bool {
    &&& 0 <= cursor <= len
    &&& bounded(ranges, len)
    &&& stack.len() == 0 ==> cursor == len
    &&& stack.len() > 0 ==> stack[0].end == len
    &&& forall|a: int| 0 <= a < stack.len() ==> (#[trigger] stack[a]).end <= len
}

/// The pieces of a sweep follow one another from the cursor to the end of
/// the text.
pub proof fn lemma_sweep_joined(
    ranges: Seq<RangeView>,
    i: int,
    stack: Seq<RangeView>,
    cursor: int,
    len: int,
)
    requires
        sweeping(ranges, stack, cursor, len),
    ensures
        joined(sweep(ranges, i, stack, cursor), cursor, len),
    decreases ranges.len() - i, stack.len(),
{
    if stack.len() == 0 {
    } else if 0 <= i < ranges.len() && ranges[i].start < stack.last().end {
        let next = stack.push(ranges[i]);
        let upto = later(cursor, ranges[i].start);
        assert(next[0] == stack[0]);
        assert forall|a: int| 0 <= a < next.len() implies (#[trigger] next[a]).end <= len by {
            if a < stack.len() {
                assert(next[a] == stack[a]);
            }
        }
        lemma_sweep_joined(ranges, i + 1, next, upto, len);
        if cursor < ranges[i].start {
            lemma_joined_front(
                Piece { start: cursor, end: ranges[i].start, kinds: stack_kinds(stack) },
                sweep(ranges, i + 1, next, upto),
                len,
            );
        }
    } else {
        let next = stack.drop_last();
        let upto = later(cursor, stack.last().end);
        if next.len() > 0 {
            assert(next[0] == stack[0]);
        }
        assert forall|a: int| 0 <= a < next.len() implies (#[trigger] next[a]).end <= len by {
            assert(next[a] == stack[a]);
        }
        lemma_sweep_joined(ranges, i, next, upto, len);
        if cursor < stack.last().end {
            lemma_joined_front(
                Piece { start: cursor, end: stack.last().end, kinds: stack_kinds(stack) },
                sweep(ranges, i, next, upto),
                len,
            );
        }
    }
}

/// Every piece starts and ends at a place that is `good`, where the cursor,
/// the starts of the ranges and the ends on the stack are.
pub proof fn lemma_sweep_cuts(
    ranges: Seq<RangeView>,
    i: int,
    stack: Seq<RangeView>,
    cursor: int,
    good: spec_fn(int) -> bool,
)
    requires
        good(cursor),
        forall|m: int| 0 <= m < ranges.len() ==> good((#[trigger] ranges[m]).start) && good(ranges[m].end),
        forall|a: int| 0 <= a < stack.len() ==> good((#[trigger] stack[a]).end),
    ensures
        forall|j: int|
            0 <= j < sweep(ranges, i, stack, cursor).len() ==> good(
                (#[trigger] sweep(ranges, i, stack, cursor)[j]).start,
            ) && good(sweep(ranges, i, stack, cursor)[j].end),
    decreases ranges.len() - i, stack.len(),
{
    let all = sweep(ranges, i, stack, cursor);
    if stack.len() == 0 {
    } else if 0 <= i < ranges.len() && ranges[i].start < stack.last().end {
        let next = stack.push(ranges[i]);
        let upto = later(cursor, ranges[i].start);
        assert forall|a: int| 0 <= a < next.len() implies good((#[trigger] next[a]).end) by {
            if a < stack.len() {
                assert(next[a] == stack[a]);
            }
        }
        lemma_sweep_cuts(ranges, i + 1, next, upto, good);
        let rest = sweep(ranges, i + 1, next, upto);
        assert forall|j: int| 0 <= j < all.len() implies good((#[trigger] all[j]).start) && good(
            all[j].end,
        ) by {
            if cursor < ranges[i].start {
                if j > 0 {
                    assert(all[j] == rest[j - 1]);
                }
            }
        }
    } else {
        let next = stack.drop_last();
        let upto = later(cursor, stack.last().end);
        assert forall|a: int| 0 <= a < next.len() implies good((#[trigger] next[a]).end) by {
            assert(next[a] == stack[a]);
        }
        lemma_sweep_cuts(ranges, i, next, upto, good);
        let rest = sweep(ranges, i, next, upto);
        assert forall|j: int| 0 <= j < all.len() implies good((#[trigger] all[j]).start) && good(
            all[j].end,
        ) by {
            if cursor < stack.last().end {
                if j > 0 {
                    assert(all[j] == rest[j - 1]);
                }
            }
        }
    }
}

/// The runs of pieces that follow one another from the start of the text,
/// each cut where a character starts, spell the text up to where they end.
pub proof fn lemma_joined_text(text: Seq<char>, ps: Seq<Piece>, to: int)
    requires
        joined(ps, 0, to),
        on_boundary(text, to),
        forall|j: int|
            0 <= j < ps.len() ==> on_boundary(text, (#[trigger] ps[j]).start) && on_boundary(
                text,
                ps[j].end,
            ),
    ensures
        flatten(piece_runs(utf16_units(text), ps)) == decode_lossy(utf16_units(text).subrange(0, to)),
    decreases ps.len(),
{
    let units = utf16_units(text);
    if ps.len() == 0 {
        assert(units.subrange(0, 0) =~= Seq::<u16>::empty());
    } else {
        let front = ps.drop_last();
        let last = ps.last();
        assert(piece_runs(units, ps).drop_last() =~= piece_runs(units, front));
        assert(piece_runs(units, ps).last() == piece_run(units, last));
        assert forall|j: int| 0 <= j < front.len() implies on_boundary(
            text,
            (#[trigger] front[j]).start,
        ) && on_boundary(text, front[j].end) by {
            assert(front[j] == ps[j]);
        }
        if front.len() > 0 {
            assert(front.last() == ps[ps.len() - 2]);
            assert(ps[ps.len() - 2].end == ps[ps.len() - 1].start);
            assert(front[0] == ps[0]);
        }
        assert(joined(front, 0, last.start)) by {
            assert forall|j: int| 0 <= j < front.len() implies (#[trigger] front[j]).start
                < front[j].end by {
                assert(front[j] == ps[j]);
            }
            assert forall|j: int| 0 <= j < front.len() - 1 implies (#[trigger] front[j]).end
                == front[j + 1].start by {
                assert(front[j] == ps[j]);
                assert(front[j + 1] == ps[j + 1]);
            }
        }
        lemma_joined_text(text, front, last.start);
        lemma_unit_offset_grows(text, 0, 0);
        assert(on_boundary(text, 0));
        lemma_decode_split(text, 0, last.start, last.end);
    }
}

/// No run is cut inside a surrogate pair: every piece into which the ranges
/// cut the text starts and ends where a character starts or the text ends.
pub open spec fn cuts_clean(text: Seq<char>, entities: Seq<EntityView>) -> bool {
    let ps = pieces(utf16_len(text) as int, entity_ranges(entities));
    forall|j: int|
        0 <= j < ps.len() ==> on_boundary(text, (#[trigger] ps[j]).start) && on_boundary(
            text,
            ps[j].end,
        )
}

/// The ranges lie within a text of `len` code units, as ranges of the sweep.
proof fn lemma_within_bounded(entities: Seq<EntityView>, len: int)
    requires
        within(entities, len),
    ensures
        bounded(entity_ranges(entities), len),
        bounded(sweep_order(entity_ranges(entities)), len),
{
    let given = entity_ranges(entities);
    assert forall|i: int| 0 <= i < given.len() implies 0 <= (#[trigger] given[i]).start
        <= given[i].end <= len by {
        assert(entities[i].offset + entities[i].length <= len);
    }
    lemma_sweep_order_bounded(given, len);
}

/// Ranges that start and end where a character starts cut no run inside a
/// surrogate pair.
pub proof fn lemma_aligned_cuts(text: Seq<char>, entities: Seq<EntityView>)
    requires
        within(entities, utf16_len(text) as int),
        aligned(text, entities),
    ensures
        cuts_clean(text, entities),
{
    let len = utf16_len(text) as int;
    let given = entity_ranges(entities);
    let sorted = sweep_order(given);
    let base = seq![RangeView { kind: None, start: 0, end: len }];
    let good = |p: int| on_boundary(text, p);
    lemma_within_bounded(entities, len);
    lemma_sweep_order_same(given);
    lemma_unit_offset_grows(text, 0, text.len() as int);
    assert(on_boundary(text, 0));
    assert(on_boundary(text, len));
    assert forall|m: int| 0 <= m < sorted.len() implies good((#[trigger] sorted[m]).start) && good(
        sorted[m].end,
    ) by {
        assert(sorted.contains(sorted[m]));
        assert(given.contains(sorted[m]));
        let x = choose|x: int| 0 <= x < given.len() && given[x] == sorted[m];
        assert(on_boundary(text, entities[x].offset as int));
    }
    lemma_sweep_cuts(sorted, 0, base, 0, good);
}

/// A place within the text at which no character starts lies between the
/// two halves of a surrogate pair.
pub proof fn lemma_off_boundary(text: Seq<char>, b: int)
    requires
        0 <= b <= utf16_len(text),
        !on_boundary(text, b),
    ensures
        0 < b < utf16_len(text),
        is_high_surrogate(utf16_units(text)[b - 1]),
        is_low_surrogate(utf16_units(text)[b]),
    decreases text.len(),
{
    let units = utf16_units(text);
    lemma_units_len(text);
    lemma_unit_offset_grows(text, 0, text.len() as int);
    if text.len() == 0 {
        assert(unit_offset(text, 0) == b);
    } else {
        let c = text[0];
        let n = unit_len(c) as int;
        let tail = text.skip(1);
        lemma_char_units(c);
        lemma_units_len(tail);
        assert(units == char_units(c) + utf16_units(tail));
        if b == 0 {
            assert(unit_offset(text, 0) == b);
        } else if b < n {
            assert(units[0] == char_units(c)[0]);
            assert(units[1] == char_units(c)[1]);
        } else {
            if on_boundary(tail, b - n) {
                let i = choose|i: int| 0 <= i <= tail.len() && unit_offset(tail, i) == b - n;
                assert(text.take(i + 1) =~= seq![c] + tail.take(i));
                lemma_units_concat(seq![c], tail.take(i));
                assert(seq![c].skip(1) =~= Seq::<char>::empty());
                assert(seq![c][0] == c);
                assert(utf16_len(seq![c].skip(1)) == 0);
                assert(utf16_len(seq![c]) == n);
                assert(unit_offset(text, i + 1) == b);
            }
            lemma_off_boundary(tail, b - n);
            assert(units[b - 1] == utf16_units(tail)[b - n - 1]);
            assert(units[b] == utf16_units(tail)[b - n]);
        }
    }
}

/// The runs of pieces that follow one another from the start of the text
/// hold no fewer characters than their stretch of the text decodes to, and
/// more where a piece starts inside a surrogate pair.
pub proof fn lemma_joined_len(text: Seq<char>, ps: Seq<Piece>, to: int)
    requires
        joined(ps, 0, to),
        to <= utf16_len(text),
    ensures
        flatten(piece_runs(utf16_units(text), ps)).len() >= decode_lossy(
            utf16_units(text).subrange(0, to),
        ).len(),
        (exists|j: int| 0 <= j < ps.len() && !on_boundary(text, (#[trigger] ps[j]).start))
            ==> flatten(piece_runs(utf16_units(text), ps)).len() > decode_lossy(
            utf16_units(text).subrange(0, to),
        ).len(),
    decreases ps.len(),
{
    let units = utf16_units(text);
    lemma_units_len(text);
    if ps.len() == 0 {
        assert(units.subrange(0, 0) =~= Seq::<u16>::empty());
    } else {
        let front = ps.drop_last();
        let last = ps.last();
        let s = last.start;
        lemma_joined_bounds(ps, 0, to, ps.len() - 1);
        assert(piece_runs(units, ps).drop_last() =~= piece_runs(units, front));
        assert(piece_runs(units, ps).last() == piece_run(units, last));
        if front.len() > 0 {
            assert(front.last() == ps[ps.len() - 2]);
            assert(ps[ps.len() - 2].end == ps[ps.len() - 2 + 1].start);
            assert(front[0] == ps[0]);
        }
        assert(joined(front, 0, s)) by {
            assert forall|j: int| 0 <= j < front.len() implies (#[trigger] front[j]).start
                < front[j].end by {
                assert(front[j] == ps[j]);
            }
            assert forall|j: int| 0 <= j < front.len() - 1 implies (#[trigger] front[j]).end
                == front[j + 1].start by {
                assert(front[j] == ps[j]);
                assert(front[j + 1] == ps[j + 1]);
            }
        }
        lemma_joined_len(text, front, s);
        let x = units.subrange(0, s);
        let y = units.subrange(s, to);
        assert(x + y =~= units.subrange(0, to));
        lemma_decode_concat(x, y);
        if !on_boundary(text, s) {
            lemma_off_boundary(text, s);
            assert(x.last() == units[s - 1]);
            assert(y[0] == units[s]);
            assert(breaks_pair(x, y));
        }
        if exists|j: int| 0 <= j < ps.len() && !on_boundary(text, (#[trigger] ps[j]).start) {
            let j = choose|j: int| 0 <= j < ps.len() && !on_boundary(text, (#[trigger] ps[j]).start);
            if j < front.len() {
                assert(front[j] == ps[j]);
            }
        }
    }
}

/// Decoding keeps the text exactly where it cuts no run inside a surrogate
/// pair: the runs cut from a text, one after the other, spell the text if
/// and only if every piece starts and ends where a character starts or the
/// text ends; provided that every range lies within the text.
pub proof fn law_build_keeps_text(text: Seq<char>, entities: Seq<EntityView>)
    requires
        within(entities, utf16_len(text) as int),
    ensures
        flatten(decoded(text, entities)) == text <==> cuts_clean(text, entities),
{
    let len = utf16_len(text) as int;
    let units = utf16_units(text);
    let given = entity_ranges(entities);
    let sorted = sweep_order(given);
    let base = seq![RangeView { kind: None, start: 0, end: len }];
    lemma_units_len(text);
    lemma_within_bounded(entities, len);
    lemma_unit_offset_grows(text, 0, text.len() as int);
    assert(on_boundary(text, len));
    assert(on_boundary(text, 0));
    lemma_sweep_joined(sorted, 0, base, 0, len);
    let ps = pieces(len, given);
    assert(units.subrange(0, len) =~= units);
    lemma_decode_encoded(text);
    if cuts_clean(text, entities) {
        lemma_joined_text(text, ps, len);
    } else {
        let j = choose|j: int|
            0 <= j < ps.len() && !(on_boundary(text, (#[trigger] ps[j]).start) && on_boundary(
                text,
                ps[j].end,
            ));
        if on_boundary(text, ps[j].start) {
            // the piece ends inside a pair, and the next one starts there
            if j == ps.len() - 1 {
                assert(ps[j] == ps.last());
            } else {
                assert(ps[j].end == ps[j + 1].start);
                assert(!on_boundary(text, ps[j + 1].start));
            }
        }
        lemma_joined_len(text, ps, len);
        assert(flatten(decoded(text, entities)).len() > text.len());
    }
}

/// Decoding keeps the text where every range lies within the text and
/// starts and ends where a character starts or the text ends.
pub proof fn law_build_keeps_aligned_text(text: Seq<char>, entities: Seq<EntityView>)
    requires
        within(entities, utf16_len(text) as int),
        aligned(text, entities),
    ensures
        flatten(decoded(text, entities)) == text,
{
    lemma_aligned_cuts(text, entities);
    law_build_keeps_text(text, entities);
}

/// Whether a range of kind `k` holds position `p`.
pub open spec fn covering(ranges: Seq<RangeView>, k: KindView, p: int) -> bool {
    exists|m: int|
        0 <= m < ranges.len() && (#[trigger] ranges[m]).kind == Some(k) && ranges[m].start <= p
            < ranges[m].end
}

/// Two ranges share nothing, or one lies within the other.
pub open spec fn nested_or_apart(a: RangeView, b: RangeView) -> bool {
    a.end <= b.start || b.end <= a.start || (a.start <= b.start && b.end <= a.end) || (b.start
        <= a.start && a.end <= b.end)
}

/// No two ranges of different kinds overlap in part only.
pub open spec fn laminar(ranges: Seq<RangeView>) -> bool {
    forall|i: int, j: int|
        0 <= i < ranges.len() && 0 <= j < ranges.len() && ranges[i].kind != ranges[j].kind
            ==> nested_or_apart(#[trigger] ranges[i], #[trigger] ranges[j])
}

/// No range is opened before one that stands before it.
pub open spec fn in_sweep_order(ranges: Seq<RangeView>) -> bool {
    forall|i: int, j: int|
        0 <= i < j < ranges.len() ==> !opens_before(#[trigger] ranges[j], #[trigger] ranges[i])
}

/// Every range of `s` is one of `a` or of `b` where `s` holds the ranges of
/// both.
proof fn lemma_merged_from(a: Seq<RangeView>, b: Seq<RangeView>, k: int)
    requires
        0 <= k < merged(a, b).len(),
    ensures
        a.contains(merged(a, b)[k]) || b.contains(merged(a, b)[k]),
    decreases a.len() + b.len(),
{
    let m = merged(a, b);
    if a.len() == 0 {
        assert(b[k] == m[k]);
    } else if b.len() == 0 {
        assert(a[k] == m[k]);
    } else if opens_before(b[0], a[0]) {
        if k == 0 {
            assert(b[0] == m[0]);
        } else {
            lemma_merged_from(a, b.skip(1), k - 1);
            let x = merged(a, b.skip(1))[k - 1];
            assert(m[k] == x);
            if b.skip(1).contains(x) {
                let j = choose|j: int| 0 <= j < b.skip(1).len() && b.skip(1)[j] == x;
                assert(b[j + 1] == x);
            }
        }
    } else {
        if k == 0 {
            assert(a[0] == m[0]);
        } else {
            lemma_merged_from(a.skip(1), b, k - 1);
            let x = merged(a.skip(1), b)[k - 1];
            assert(m[k] == x);
            if a.skip(1).contains(x) {
                let j = choose|j: int| 0 <= j < a.skip(1).len() && a.skip(1)[j] == x;
                assert(a[j + 1] == x);
            }
        }
    }
}

/// `x` before ranges in the order of the sweep, none of which is opened
/// before it, makes ranges in that order.
proof fn lemma_ordered_front(x: RangeView, rest: Seq<RangeView>)
    requires
        in_sweep_order(rest),
        forall|k: int| 0 <= k < rest.len() ==> !opens_before(#[trigger] rest[k], x),
    ensures
        in_sweep_order(seq![x] + rest),
{
    let all = seq![x] + rest;
    assert forall|i: int, j: int| 0 <= i < j < all.len() implies !opens_before(
        #[trigger] all[j],
        #[trigger] all[i],
    ) by {
        assert(all[j] == rest[j - 1]);
        if i > 0 {
            assert(all[i] == rest[i - 1]);
        }
    }
}

/// Merging keeps the order of the sweep.
proof fn lemma_merged_ordered(a: Seq<RangeView>, b: Seq<RangeView>)
    requires
        in_sweep_order(a),
        in_sweep_order(b),
    ensures
        in_sweep_order(merged(a, b)),
    decreases a.len() + b.len(),
{
    if a.len() == 0 || b.len() == 0 {
    } else if opens_before(b[0], a[0]) {
        let tail = b.skip(1);
        assert forall|i: int, j: int| 0 <= i < j < tail.len() implies !opens_before(
            #[trigger] tail[j],
            #[trigger] tail[i],
        ) by {
            assert(tail[i] == b[i + 1] && tail[j] == b[j + 1]);
        }
        lemma_merged_ordered(a, tail);
        let rest = merged(a, tail);
        assert forall|k: int| 0 <= k < rest.len() implies !opens_before(#[trigger] rest[k], b[0]) by {
            lemma_merged_from(a, tail, k);
            if a.contains(rest[k]) {
                let x = choose|x: int| 0 <= x < a.len() && a[x] == rest[k];
                if x > 0 {
                    assert(!opens_before(a[x], a[0]));
                }
            } else {
                let x = choose|x: int| 0 <= x < tail.len() && tail[x] == rest[k];
                assert(tail[x] == b[x + 1]);
                assert(!opens_before(b[x + 1], b[0]));
            }
        }
        lemma_ordered_front(b[0], rest);
    } else {
        let tail = a.skip(1);
        assert forall|i: int, j: int| 0 <= i < j < tail.len() implies !opens_before(
            #[trigger] tail[j],
            #[trigger] tail[i],
        ) by {
            assert(tail[i] == a[i + 1] && tail[j] == a[j + 1]);
        }
        lemma_merged_ordered(tail, b);
        let rest = merged(tail, b);
        assert forall|k: int| 0 <= k < rest.len() implies !opens_before(#[trigger] rest[k], a[0]) by {
            lemma_merged_from(tail, b, k);
            if tail.contains(rest[k]) {
                let x = choose|x: int| 0 <= x < tail.len() && tail[x] == rest[k];
                assert(tail[x] == a[x + 1]);
                assert(!opens_before(a[x + 1], a[0]));
            } else {
                let x = choose|x: int| 0 <= x < b.len() && b[x] == rest[k];
                if x > 0 {
                    assert(!opens_before(b[x], b[0]));
                }
            }
        }
        lemma_ordered_front(a[0], rest);
    }
}

/// The order of the sweep is one: by start, the wider first.
pub proof fn lemma_sweep_order_ordered(ranges: Seq<RangeView>)
    ensures
        in_sweep_order(sweep_order(ranges)),
    decreases ranges.len(),
{
    if ranges.len() > 1 {
        let mid = ranges.len() as int / 2;
        lemma_sweep_order_ordered(ranges.take(mid));
        lemma_sweep_order_ordered(ranges.skip(mid));
        lemma_merged_ordered(sweep_order(ranges.take(mid)), sweep_order(ranges.skip(mid)));
    }
}

/// Between the places `a` and `q` of the stack stands a range of the kind
/// of the range at `a` that ends no earlier than the range at `q`.
pub open spec fn has_backer(stack: Seq<RangeView>, a: int, q: int) -> bool {
    exists|b: int|
        a <= b <= q && (#[trigger] stack[b]).kind == stack[a].kind && stack[b].end >= stack[q].end
}

/// Every range on the stack has, up to each place above it, a range of its
/// kind that ends no earlier than the range at that place.
pub open spec fn backed(stack: Seq<RangeView>) -> bool {
    forall|q: int, a: int| 1 <= a <= q < stack.len() ==> #[trigger] has_backer(stack, a, q)
}

/// The state of a sweep over ranges of which no two of different kinds
/// overlap in part only: `held` names the ranges on the stack above its
/// bottom; every range on the stack starts at or before the cursor and is
/// backed by one of its kind; every range opened and closed again ends at or
/// before the cursor, and every range not yet opened starts at or behind it.
pub open spec fn nesting(
    ranges: Seq<RangeView>,
    i: int,
    stack: Seq<RangeView>,
    held: Seq<int>,
    cursor: int,
    len: int,
) -> bool {
    &&& tracking(ranges, i, stack, held, cursor, len)
    &&& #[trigger] backed(stack)
    &&& forall|a: int| 0 <= a < stack.len() ==> (#[trigger] stack[a]).start <= cursor
}

/// Each piece carries the kinds of the ranges that hold its positions, and
/// no others.
pub open spec fn faithful(ps: Seq<Piece>, ranges: Seq<RangeView>) -> bool {
    forall|j: int, p: int, k: KindView|
        0 <= j < ps.len() && (#[trigger] ps[j]).start <= p < ps[j].end ==> (ps[j].kinds.contains(k)
            <==> #[trigger] covering(ranges, k, p))
}

/// While the state of the sweep is `nesting`, every kind on the stack is the
/// kind of a range that holds the positions from the cursor up to `upto`.
proof fn lemma_stack_covers(
    ranges: Seq<RangeView>,
    i: int,
    stack: Seq<RangeView>,
    held: Seq<int>,
    cursor: int,
    len: int,
    upto: int,
    p: int,
    k: KindView,
)
    requires
        nesting(ranges, i, stack, held, cursor, len),
        whole(stack, len),
        cursor <= p < upto,
        upto <= stack.last().end,
        stack_kinds(stack).contains(k),
    ensures
        covering(ranges, k, p),
{
    let a = choose|a: int| 0 <= a < stack.len() && (#[trigger] stack[a]).kind == Some(k);
    let q = stack.len() - 1;
    assert(a >= 1);
    assert(has_backer(stack, a, q));
    let b = choose|b: int|
        a <= b <= q && (#[trigger] stack[b]).kind == stack[a].kind && stack[b].end >= stack[q].end;
    assert(stack[b - 1 + 1] == ranges[held[b - 1]]);
    assert(stack[b].start <= cursor);
    assert(ranges[held[b - 1]].kind == Some(k));
}

/// The bottom of the stack is the whole text.
pub open spec fn whole(stack: Seq<RangeView>, len: int) -> bool {
    stack.len() > 0 && stack[0] == (RangeView { kind: None, start: 0, end: len })
}

/// Swept over ranges of which no two of different kinds overlap in part
/// only, each piece carries no kind but those of the ranges that hold its
/// positions.
pub proof fn lemma_sweep_faithful(
    ranges: Seq<RangeView>,
    i: int,
    stack: Seq<RangeView>,
    held: Seq<int>,
    cursor: int,
    len: int,
)
    requires
        bounded(ranges, len),
        laminar(ranges),
        in_sweep_order(ranges),
        stack.len() > 0 ==> nesting(ranges, i, stack, held, cursor, len) && whole(stack, len),
    ensures
        faithful(sweep(ranges, i, stack, cursor), ranges),
    decreases ranges.len() - i, stack.len(),
{
    let all = sweep(ranges, i, stack, cursor);
    if stack.len() == 0 {
    } else if 0 <= i < ranges.len() && ranges[i].start < stack.last().end {
        let n = ranges[i];
        let next = stack.push(n);
        let held2 = held.push(i);
        let upto = later(cursor, n.start);
        let top = stack.last();
        let q = stack.len() - 1;
        assert(cursor <= n.start);
        assert(tracking(ranges, i + 1, next, held2, upto, len)) by {
            assert forall|a: int| 0 <= a < held2.len() implies 0 <= (#[trigger] held2[a]) < i + 1
                && next[a + 1] == ranges[held2[a]] by {
                if a < held.len() {
                    assert(held2[a] == held[a]);
                    assert(next[a + 1] == stack[a + 1]);
                }
            }
            assert forall|m: int| 0 <= m < i + 1 && !held2.contains(m) implies (#[trigger] ranges[m]).end
                <= upto by {
                if m == i {
                    assert(held2[held.len() as int] == i);
                } else {
                    if held.contains(m) {
                        let a = choose|a: int| 0 <= a < held.len() && held[a] == m;
                        assert(held2[a] == m);
                    }
                }
            }
            assert forall|m: int| i + 1 <= m < ranges.len() implies upto <= (#[trigger] ranges[m]).start by {
                assert(!opens_before(ranges[m], ranges[i]));
            }
        }
        assert(backed(next)) by {
            assert forall|q2: int, a: int| 1 <= a <= q2 < next.len() implies #[trigger] has_backer(
                next,
                a,
                q2,
            ) by {
                if q2 < stack.len() {
                    assert(has_backer(stack, a, q2));
                    let b = choose|b: int|
                        a <= b <= q2 && (#[trigger] stack[b]).kind == stack[a].kind && stack[b].end
                            >= stack[q2].end;
                    assert(next[b] == stack[b]);
                    assert(next[a] == stack[a]);
                    assert(next[q2] == stack[q2]);
                } else if a == q2 {
                    assert(next[a].kind == next[a].kind && next[a].end >= next[q2].end);
                } else {
                    // an old range: the one that backs it up to the old top
                    // ends no earlier than the new top, or is of its kind
                    assert(has_backer(stack, a, q));
                    let b = choose|b: int|
                        a <= b <= q && (#[trigger] stack[b]).kind == stack[a].kind && stack[b].end
                            >= stack[q].end;
                    let x = stack[b];
                    assert(next[a] == stack[a]);
                    assert(next[b] == x);
                    assert(next[q2] == n);
                    if x.kind == n.kind {
                        assert(next[q2].kind == next[a].kind);
                    } else {
                        assert(x == ranges[held[b - 1]]) by {
                            assert(stack[b - 1 + 1] == ranges[held[b - 1]]);
                        }
                        assert(nested_or_apart(ranges[held[b - 1]], ranges[i]));
                        assert(!opens_before(ranges[i], ranges[held[b - 1]]));
                        assert(x.start <= cursor);
                        assert(x.end >= n.end);
                    }
                }
            }
        }
        assert(nesting(ranges, i + 1, next, held2, upto, len)) by {
            assert forall|a: int| 0 <= a < next.len() implies (#[trigger] next[a]).start
                <= upto by {
                if a < stack.len() {
                    assert(next[a] == stack[a]);
                }
            }
        }
        assert(next[0] == stack[0]);
        lemma_sweep_faithful(ranges, i + 1, next, held2, upto, len);
        lemma_sweep_complete(ranges, i, stack, held, cursor, len);
        let rest = sweep(ranges, i + 1, next, upto);
        assert forall|j: int, p: int, k: KindView|
            0 <= j < all.len() && (#[trigger] all[j]).start <= p < all[j].end implies (
        all[j].kinds.contains(k) <==> #[trigger] covering(ranges, k, p)) by {
            if cursor < n.start {
                if j == 0 {
                    if stack_kinds(stack).contains(k) {
                        lemma_stack_covers(ranges, i, stack, held, cursor, len, n.start, p, k);
                    }
                } else {
                    assert(all[j] == rest[j - 1]);
                }
            }
        }
    } else {
        let next = stack.drop_last();
        let top = stack.last();
        let upto = later(cursor, top.end);
        if next.len() > 0 {
            let held2 = held.drop_last();
            let t = held.last();
            assert(stack[held.len() - 1 + 1] == ranges[t]);
            assert(tracking(ranges, i, next, held2, upto, len)) by {
                assert forall|a: int| 0 <= a < held2.len() implies 0 <= (#[trigger] held2[a]) < i
                    && next[a + 1] == ranges[held2[a]] by {
                    assert(held2[a] == held[a]);
                    assert(next[a + 1] == stack[a + 1]);
                }
                assert forall|m: int| 0 <= m < i && !held2.contains(m) implies (#[trigger] ranges[m]).end
                    <= upto by {
                    if m != t {
                        if held.contains(m) {
                            let a = choose|a: int| 0 <= a < held.len() && held[a] == m;
                            assert(held2[a] == m);
                        }
                    }
                }
                assert forall|m: int| i <= m < ranges.len() implies upto <= (#[trigger] ranges[m]).start by {
                    if i < ranges.len() {
                        if m > i {
                            assert(!opens_before(ranges[m], ranges[i]));
                        }
                    }
                }
            }
            assert(backed(next)) by {
                assert forall|q2: int, a: int| 1 <= a <= q2 < next.len() implies #[trigger] has_backer(
                    next,
                    a,
                    q2,
                ) by {
                    assert(has_backer(stack, a, q2));
                    let b = choose|b: int|
                        a <= b <= q2 && (#[trigger] stack[b]).kind == stack[a].kind && stack[b].end
                            >= stack[q2].end;
                    assert(next[b] == stack[b]);
                    assert(next[a] == stack[a]);
                    assert(next[q2] == stack[q2]);
                }
            }
            assert(nesting(ranges, i, next, held2, upto, len)) by {
                assert forall|a: int| 0 <= a < next.len() implies (#[trigger] next[a]).start
                    <= upto by {
                    assert(next[a] == stack[a]);
                }
            }
            assert(next[0] == stack[0]);
            lemma_sweep_faithful(ranges, i, next, held2, upto, len);
        } else {
            lemma_sweep_faithful(ranges, i, next, held, upto, len);
        }
        lemma_sweep_complete(ranges, i, stack, held, cursor, len);
        let rest = sweep(ranges, i, next, upto);
        assert forall|j: int, p: int, k: KindView|
            0 <= j < all.len() && (#[trigger] all[j]).start <= p < all[j].end implies (
        all[j].kinds.contains(k) <==> #[trigger] covering(ranges, k, p)) by {
            if cursor < top.end {
                if j == 0 {
                    if stack_kinds(stack).contains(k) {
                        lemma_stack_covers(ranges, i, stack, held, cursor, len, top.end, p, k);
                    }
                } else {
                    assert(all[j] == rest[j - 1]);
                }
            }
        }
    }
}

/// Joined pieces lie between their ends, in ascending order.
pub proof fn lemma_joined_bounds(ps: Seq<Piece>, from: int, to: int, j: int)
    requires
        joined(ps, from, to),
        0 <= j < ps.len(),
    ensures
        from <= ps[j].start < ps[j].end <= to,
        from + j <= ps[j].start,
        ps[j].end + (ps.len() - 1 - j) <= to,
{
    lemma_joined_up(ps, from, to, j);
    lemma_joined_down(ps, from, to, j);
}

proof fn lemma_joined_up(ps: Seq<Piece>, from: int, to: int, j: int)
    requires
        joined(ps, from, to),
        0 <= j < ps.len(),
    ensures
        from + j <= ps[j].start < ps[j].end,
    decreases j,
{
    if j > 0 {
        lemma_joined_up(ps, from, to, j - 1);
        assert(ps[j - 1].end == ps[j - 1 + 1].start);
    }
}

proof fn lemma_joined_down(ps: Seq<Piece>, from: int, to: int, j: int)
    requires
        joined(ps, from, to),
        0 <= j < ps.len(),
    ensures
        ps[j].start < ps[j].end,
        ps[j].end + (ps.len() - 1 - j) <= to,
    decreases ps.len() - j,
{
    if j < ps.len() - 1 {
        lemma_joined_down(ps, from, to, j + 1);
        assert(ps[j].end == ps[j + 1].start);
    }
}

/// Every position between the ends of joined pieces lies in one of them.
pub proof fn lemma_joined_covers(ps: Seq<Piece>, from: int, to: int, p: int) -> (j: int)
    requires
        joined(ps, from, to),
        from <= p < to,
    ensures
        0 <= j < ps.len(),
        ps[j].start <= p < ps[j].end,
    decreases ps.len(),
{
    if p < ps[0].end {
        0
    } else {
        let rest = ps.skip(1);
        assert(ps.len() > 1) by {
            if ps.len() == 1 {
                assert(ps.last() == ps[0]);
            }
        }
        assert(ps[0].end == ps[0int + 1].start);
        assert(joined(rest, ps[0].end, to)) by {
            assert(rest[0] == ps[1]);
            assert(rest.last() == ps.last());
            assert forall|j: int| 0 <= j < rest.len() implies (#[trigger] rest[j]).start
                < rest[j].end by {
                assert(rest[j] == ps[j + 1]);
            }
            assert forall|j: int| 0 <= j < rest.len() - 1 implies (#[trigger] rest[j]).end
                == rest[j + 1].start by {
                assert(rest[j] == ps[j + 1]);
                assert(rest[j + 1] == ps[j + 1 + 1]);
            }
            lemma_joined_bounds(ps, from, to, 0);
        }
        let j = lemma_joined_covers(rest, ps[0].end, to, p);
        assert(rest[j] == ps[j + 1]);
        j + 1
    }
}

/// The run of a piece has as many code units as the piece.
pub proof fn lemma_run_starts(units: Seq<u16>, ps: Seq<Piece>, j: int)
    requires
        joined(ps, 0, units.len() as int),
        0 <= j <= ps.len(),
    ensures
        run_start(piece_runs(units, ps), j) == if j < ps.len() {
            ps[j].start
        } else {
            units.len() as int
        },
    decreases j,
{
    let segs = piece_runs(units, ps);
    if j == 0 {
        assert(segs.take(0) =~= Seq::<SegmentView>::empty());
    } else {
        lemma_run_starts(units, ps, j - 1);
        lemma_run_start(segs, j - 1);
        lemma_joined_bounds(ps, 0, units.len() as int, j - 1);
        lemma_decode_keeps_len(units.subrange(ps[j - 1].start, ps[j - 1].end));
        assert(segs[j - 1].text == decode_lossy(units.subrange(ps[j - 1].start, ps[j - 1].end)));
        if j < ps.len() {
            assert(ps[j - 1].end == ps[j - 1 + 1].start);
        } else {
            assert(ps[j - 1] == ps.last());
        }
    }
}

/// The state of a sweep: `held` names the ranges on the stack above its
/// bottom; every range opened and closed again ends at or before the cursor,
/// and every range not yet opened starts at or behind it.
pub open spec fn tracking(
    ranges: Seq<RangeView>,
    i: int,
    stack: Seq<RangeView>,
    held: Seq<int>,
    cursor: int,
    len: int,
) -> bool {
    &&& 0 <= i <= ranges.len()
    &&& stack.len() == held.len() + 1
    &&& forall|a: int|
        0 <= a < held.len() ==> 0 <= (#[trigger] held[a]) < i && stack[a + 1] == ranges[held[a]]
    &&& forall|m: int| 0 <= m < i && !held.contains(m) ==> (#[trigger] ranges[m]).end <= cursor
    &&& forall|m: int| i <= m < ranges.len() ==> cursor <= (#[trigger] ranges[m]).start
}

/// Each piece carries the kinds of the ranges that hold its positions.
pub open spec fn complete(ps: Seq<Piece>, ranges: Seq<RangeView>) -> bool {
    forall|j: int, p: int, k: KindView|
        0 <= j < ps.len() && (#[trigger] ps[j]).start <= p < ps[j].end && #[trigger] covering(
            ranges,
            k,
            p,
        ) ==> ps[j].kinds.contains(k)
}

/// While the state of the sweep is `tracking`, the stack holds the ranges
/// that hold the positions from the cursor up to `upto`.
proof fn lemma_stack_holds(
    ranges: Seq<RangeView>,
    i: int,
    stack: Seq<RangeView>,
    held: Seq<int>,
    cursor: int,
    len: int,
    upto: int,
    p: int,
    k: KindView,
)
    requires
        tracking(ranges, i, stack, held, cursor, len),
        cursor <= p < upto,
        forall|m: int| i <= m < ranges.len() ==> upto <= (#[trigger] ranges[m]).start,
        covering(ranges, k, p),
    ensures
        stack_kinds(stack).contains(k),
{
    let m = choose|m: int|
        0 <= m < ranges.len() && (#[trigger] ranges[m]).kind == Some(k) && ranges[m].start <= p
            < ranges[m].end;
    if m >= i {
        assert(upto <= ranges[m].start);
    } else {
        if !held.contains(m) {
            assert(ranges[m].end <= cursor);
        }
        let a = choose|a: int| 0 <= a < held.len() && held[a] == m;
        assert(stack[a + 1] == ranges[m]);
        assert(stack[a + 1].kind == Some(k));
    }
}

/// Whatever the ranges, each piece of the sweep carries the kinds of the
/// ranges that hold its positions.
pub proof fn lemma_sweep_complete(
    ranges: Seq<RangeView>,
    i: int,
    stack: Seq<RangeView>,
    held: Seq<int>,
    cursor: int,
    len: int,
)
    requires
        in_sweep_order(ranges),
        stack.len() > 0 ==> tracking(ranges, i, stack, held, cursor, len),
    ensures
        complete(sweep(ranges, i, stack, cursor), ranges),
    decreases ranges.len() - i, stack.len(),
{
    let all = sweep(ranges, i, stack, cursor);
    if stack.len() == 0 {
    } else if 0 <= i < ranges.len() && ranges[i].start < stack.last().end {
        let next = stack.push(ranges[i]);
        let held2 = held.push(i);
        let upto = later(cursor, ranges[i].start);
        assert(cursor <= ranges[i].start);
        assert(tracking(ranges, i + 1, next, held2, upto, len)) by {
            assert forall|a: int| 0 <= a < held2.len() implies 0 <= (#[trigger] held2[a]) < i + 1
                && next[a + 1] == ranges[held2[a]] by {
                if a < held.len() {
                    assert(held2[a] == held[a]);
                    assert(next[a + 1] == stack[a + 1]);
                }
            }
            assert forall|m: int| 0 <= m < i + 1 && !held2.contains(m) implies (#[trigger] ranges[m]).end
                <= upto by {
                if m == i {
                    assert(held2[held.len() as int] == i);
                } else {
                    if held.contains(m) {
                        let a = choose|a: int| 0 <= a < held.len() && held[a] == m;
                        assert(held2[a] == m);
                    }
                }
            }
            assert forall|m: int| i + 1 <= m < ranges.len() implies upto <= (#[trigger] ranges[m]).start by {
                assert(!opens_before(ranges[m], ranges[i]));
            }
        }
        lemma_sweep_complete(ranges, i + 1, next, held2, upto, len);
        let rest = sweep(ranges, i + 1, next, upto);
        assert forall|j: int, p: int, k: KindView|
            0 <= j < all.len() && (#[trigger] all[j]).start <= p < all[j].end && #[trigger] covering(
                ranges,
                k,
                p,
            ) implies all[j].kinds.contains(k) by {
            if cursor < ranges[i].start {
                if j == 0 {
                    assert forall|m: int| i <= m < ranges.len() implies ranges[i].start <= (#[trigger] ranges[m]).start by {
                        if m > i {
                            assert(!opens_before(ranges[m], ranges[i]));
                        }
                    }
                    lemma_stack_holds(ranges, i, stack, held, cursor, len, ranges[i].start, p, k);
                } else {
                    assert(all[j] == rest[j - 1]);
                }
            }
        }
    } else {
        let next = stack.drop_last();
        let top = stack.last();
        let upto = later(cursor, top.end);
        if next.len() > 0 {
            let held2 = held.drop_last();
            let t = held.last();
            assert(stack[held.len() - 1 + 1] == ranges[t]);
            assert(tracking(ranges, i, next, held2, upto, len)) by {
                assert forall|a: int| 0 <= a < held2.len() implies 0 <= (#[trigger] held2[a]) < i
                    && next[a + 1] == ranges[held2[a]] by {
                    assert(held2[a] == held[a]);
                    assert(next[a + 1] == stack[a + 1]);
                }
                assert forall|m: int| 0 <= m < i && !held2.contains(m) implies (#[trigger] ranges[m]).end
                    <= upto by {
                    if m != t {
                        if held.contains(m) {
                            let a = choose|a: int| 0 <= a < held.len() && held[a] == m;
                            assert(held2[a] == m);
                        }
                    }
                }
                assert forall|m: int| i <= m < ranges.len() implies upto <= (#[trigger] ranges[m]).start by {
                    if i < ranges.len() {
                        if m > i {
                            assert(!opens_before(ranges[m], ranges[i]));
                        }
                    }
                }
            }
            lemma_sweep_complete(ranges, i, next, held2, upto, len);
        } else {
            lemma_sweep_complete(ranges, i, next, held, upto, len);
        }
        let rest = sweep(ranges, i, next, upto);
        assert forall|j: int, p: int, k: KindView|
            0 <= j < all.len() && (#[trigger] all[j]).start <= p < all[j].end && #[trigger] covering(
                ranges,
                k,
                p,
            ) implies all[j].kinds.contains(k) by {
            if cursor < top.end {
                if j == 0 {
                    assert forall|m: int| i <= m < ranges.len() implies top.end <= (#[trigger] ranges[m]).start by {
                        if m > i {
                            assert(!opens_before(ranges[m], ranges[i]));
                        }
                    }
                    lemma_stack_holds(ranges, i, stack, held, cursor, len, top.end, p, k);
                } else {
                    assert(all[j] == rest[j - 1]);
                }
            }
        }
    }
}

/// The ranges of the entities hold, kind by kind, the positions that the
/// entities hold.
pub proof fn lemma_covering_entities(entities: Seq<EntityView>, k: KindView, p: int)
    ensures
        covering(sweep_order(entity_ranges(entities)), k, p) <==> covers(entities, k, p),
{
    let given = entity_ranges(entities);
    let sorted = sweep_order(given);
    lemma_sweep_order_same(given);
    if covering(sorted, k, p) {
        let m = choose|m: int|
            0 <= m < sorted.len() && (#[trigger] sorted[m]).kind == Some(k) && sorted[m].start <= p
                < sorted[m].end;
        assert(sorted.contains(sorted[m]));
        assert(given.contains(sorted[m]));
        let x = choose|x: int| 0 <= x < given.len() && given[x] == sorted[m];
        assert(given[x] == range_of(entities[x]));
        assert(entities[x].kind == k);
    }
    if covers(entities, k, p) {
        let x = choose|x: int|
            0 <= x < entities.len() && (#[trigger] entities[x]).kind == k && entities[x].offset <= p
                < entities[x].offset + entities[x].length;
        assert(given[x] == range_of(entities[x]));
        assert(given.contains(given[x]));
        assert(sorted.contains(given[x]));
        let m = choose|m: int| 0 <= m < sorted.len() && sorted[m] == given[x];
        assert(sorted[m].kind == Some(k));
    }
}

/// No two of the entities that differ in kind overlap in part only: of any
/// two such, one lies within the other or they share no position.
pub open spec fn nested(entities: Seq<EntityView>) -> bool {
    laminar(entity_ranges(entities))
}

/// The runs cut from a text carry, at each code unit, the kinds of the
/// ranges that hold it and no others, provided that every range lies within
/// the text and no two ranges of different kinds overlap in part only.
pub proof fn law_build_keeps_kinds(text: Seq<char>, entities: Seq<EntityView>)
    requires
        within(entities, utf16_len(text) as int),
        nested(entities),
    ensures
        forall|k: KindView, p: int| #[trigger]
            kind_at(decoded(text, entities), k, p) <==> covers(entities, k, p),
{
    let len = utf16_len(text) as int;
    let units = utf16_units(text);
    let given = entity_ranges(entities);
    let sorted = sweep_order(given);
    let base = seq![RangeView { kind: None, start: 0, end: len }];
    let ps = pieces(len, given);
    let segs = decoded(text, entities);
    lemma_units_len(text);
    lemma_within_bounded(entities, len);
    lemma_sweep_order_same(given);
    lemma_sweep_order_ordered(given);
    assert(laminar(sorted)) by {
        assert forall|i: int, j: int|
            0 <= i < sorted.len() && 0 <= j < sorted.len() && sorted[i].kind
                != sorted[j].kind implies nested_or_apart(
            #[trigger] sorted[i],
            #[trigger] sorted[j],
        ) by {
            assert(sorted.contains(sorted[i]));
            assert(sorted.contains(sorted[j]));
            assert(given.contains(sorted[i]));
            assert(given.contains(sorted[j]));
            let x = choose|x: int| 0 <= x < given.len() && given[x] == sorted[i];
            let y = choose|y: int| 0 <= y < given.len() && given[y] == sorted[j];
            assert(nested_or_apart(given[x], given[y]));
        }
    }
    let held = Seq::<int>::empty();
    assert(backed(base));
    assert(nesting(sorted, 0, base, held, 0, len));
    lemma_sweep_faithful(sorted, 0, base, held, 0, len);
    lemma_sweep_joined(sorted, 0, base, 0, len);
    assert forall|k: KindView, p: int| #[trigger]
        kind_at(segs, k, p) <==> covers(entities, k, p) by {
        lemma_covering_entities(entities, k, p);
        if kind_at(segs, k, p) {
            let j = choose|j: int|
                0 <= j < segs.len() && (#[trigger] segs[j]).kind.contains(k) && run_start(segs, j)
                    <= p < run_start(segs, j + 1);
            lemma_run_starts(units, ps, j);
            lemma_run_starts(units, ps, j + 1);
            lemma_joined_bounds(ps, 0, len, j);
            if j + 1 < ps.len() {
                assert(ps[j].end == ps[j + 1].start);
            } else {
                assert(ps[j] == ps.last());
            }
            assert(ps[j].start <= p < ps[j].end);
            assert(segs[j].kind == ps[j].kinds);
            assert(ps[j].kinds.contains(k) <==> covering(sorted, k, p));
        }
        if covers(entities, k, p) {
            let x = choose|x: int|
                0 <= x < entities.len() && (#[trigger] entities[x]).kind == k && entities[x].offset
                    <= p < entities[x].offset + entities[x].length;
            assert(entities[x].offset + entities[x].length <= len);
            let j = lemma_joined_covers(ps, 0, len, p);
            assert(ps[j].kinds.contains(k) <==> covering(sorted, k, p));
            lemma_run_starts(units, ps, j);
            lemma_run_starts(units, ps, j + 1);
            if j + 1 < ps.len() {
                assert(ps[j].end == ps[j + 1].start);
            } else {
                assert(ps[j] == ps.last());
            }
            assert(segs[j].kind == ps[j].kinds);
            assert(segs[j].kind.contains(k));
        }
    }
}

/// Whatever the ranges, no formatting is lost: where a range of some kind
/// holds a code unit, the run cut from the text that holds the code unit
/// carries the kind; provided that every range lies within the text.
pub proof fn law_build_loses_no_kind(text: Seq<char>, entities: Seq<EntityView>)
    requires
        within(entities, utf16_len(text) as int),
    ensures
        forall|k: KindView, p: int| #[trigger]
            covers(entities, k, p) ==> kind_at(decoded(text, entities), k, p),
{
    let len = utf16_len(text) as int;
    let units = utf16_units(text);
    let given = entity_ranges(entities);
    let sorted = sweep_order(given);
    let base = seq![RangeView { kind: None, start: 0, end: len }];
    let ps = pieces(len, given);
    let segs = decoded(text, entities);
    lemma_units_len(text);
    lemma_within_bounded(entities, len);
    lemma_sweep_order_ordered(given);
    let held = Seq::<int>::empty();
    assert(tracking(sorted, 0, base, held, 0, len));
    lemma_sweep_complete(sorted, 0, base, held, 0, len);
    lemma_sweep_joined(sorted, 0, base, 0, len);
    assert forall|k: KindView, p: int| #[trigger] covers(entities, k, p) implies kind_at(
        segs,
        k,
        p,
    ) by {
        lemma_covering_entities(entities, k, p);
        let x = choose|x: int|
            0 <= x < entities.len() && (#[trigger] entities[x]).kind == k && entities[x].offset <= p
                < entities[x].offset + entities[x].length;
        assert(entities[x].offset + entities[x].length <= len);
        let j = lemma_joined_covers(ps, 0, len, p);
        assert(covering(sorted, k, p));
        assert(ps[j].kinds.contains(k));
        lemma_run_starts(units, ps, j);
        lemma_run_starts(units, ps, j + 1);
        if j + 1 < ps.len() {
            assert(ps[j].end == ps[j + 1].start);
        } else {
            assert(ps[j] == ps.last());
        }
        assert(segs[j].kind == ps[j].kinds);
        assert(segs[j].kind.contains(k));
    }
}

/// Round trip: ranges that format each code unit as the runs cut from a
/// text do, format it as the ranges did from which the runs were cut;
/// provided that every one of these lies within the text and no two of them
/// of different kinds overlap in part only.
pub proof fn law_round_trip(text: Seq<char>, entities: Seq<EntityView>, encoded: Seq<EntityView>)
    requires
        within(entities, utf16_len(text) as int),
        nested(entities),
        forall|k: KindView, p: int| #[trigger]
            covers(encoded, k, p) <==> kind_at(decoded(text, entities), k, p),
    ensures
        forall|k: KindView, p: int| #[trigger] covers(encoded, k, p) <==> covers(entities, k, p),
{
    law_build_keeps_kinds(text, entities);
    assert forall|k: KindView, p: int| #[trigger]
        covers(encoded, k, p) <==> covers(entities, k, p) by {
        assert(covers(encoded, k, p) <==> kind_at(decoded(text, entities), k, p));
    }
}

} // verus!
