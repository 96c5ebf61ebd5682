//! Laws of the reader, stated over the grammar model and proved once and
//! for all: how a game's event sequence is shaped, what a tag event may
//! hold, and how many games a stream yields.

use vstd::prelude::*;

use crate::model::{
    after_bom, after_ket, after_line, after_ws, closers, find_byte, find_byte3, game, has2,
    has_bom, has_draw_tail, is_digit_byte, is_san_start, is_terminator_byte, is_ws_byte, lemma_after_ket,
    lemma_after_line, lemma_after_ws, lemma_after_ws_shift, lemma_find_byte, lemma_find_byte3,
    lemma_game, lemma_movetext, lemma_movetext_events_shape, lemma_movetext_step,
    lemma_skip_digits, lemma_skip_dots, lemma_tag_value_scan, lemma_tags,
    lemma_tags_events_shape, lemma_token_end, movetext, movetext_step, skip_digits, skip_dots,
    tag_value_scan, tag_window_end, tags, token_end, ScanEnd,
};
use crate::types::EventView;

verus! {

// ---------------------------------------------------------------------------
// Variation balance
// ---------------------------------------------------------------------------

/// The count of variation openings minus closings over a whole event
/// sequence.
pub open spec fn net_opens(evs: Seq<EventView>) -> int
    decreases evs.len(),
{
    if evs.len() == 0 {
        0
    } else {
        net_opens(evs.drop_last()) + if evs.last() is BeginVariation {
            1
        } else if evs.last() is EndVariation {
            -1
        } else {
            0
        }
    }
}

/// The least value of `net_opens` over all prefixes.
pub open spec fn min_opens(evs: Seq<EventView>) -> int
    decreases evs.len(),
{
    if evs.len() == 0 {
        0
    } else {
        let m = min_opens(evs.drop_last());
        let n = net_opens(evs);
        if m <= n {
            m
        } else {
            n
        }
    }
}

/// Variation events pair up: closings never outnumber openings in any
/// prefix, and none is left open at the end.
pub open spec fn balanced(evs: Seq<EventView>) -> bool {
    net_opens(evs) == 0 && min_opens(evs) >= 0
}

proof fn lemma_net_add(a: Seq<EventView>, b: Seq<EventView>)
    ensures
        net_opens(a + b) == net_opens(a) + net_opens(b),
    decreases b.len(),
{
    if b.len() == 0 {
        assert(a + b =~= a);
    } else {
        lemma_net_add(a, b.drop_last());
        assert((a + b).drop_last() =~= a + b.drop_last());
        assert((a + b).last() == b.last());
    }
}

proof fn lemma_min_add(a: Seq<EventView>, b: Seq<EventView>)
    ensures
        min_opens(a + b) == if min_opens(a) <= net_opens(a) + min_opens(b) {
            min_opens(a)
        } else {
            net_opens(a) + min_opens(b)
        },
    decreases b.len(),
{
    if b.len() == 0 {
        assert(a + b =~= a);
        lemma_min_le_net(a);
    } else {
        lemma_min_add(a, b.drop_last());
        lemma_net_add(a, b.drop_last());
        lemma_net_add(a, b);
        assert((a + b).drop_last() =~= a + b.drop_last());
        assert((a + b).last() == b.last());
    }
}

/// The least prefix count is never above the whole count, and never above
/// zero.
proof fn lemma_min_le_net(a: Seq<EventView>)
    ensures
        min_opens(a) <= net_opens(a),
        min_opens(a) <= 0,
    decreases a.len(),
{
    if a.len() > 0 {
        lemma_min_le_net(a.drop_last());
    }
}

proof fn lemma_balance_single(e: EventView)
    ensures
        net_opens(seq![e]) == (if e is BeginVariation {
            1int
        } else if e is EndVariation {
            -1int
        } else {
            0int
        }),
        min_opens(seq![e]) == (if e is EndVariation {
            -1int
        } else {
            0int
        }),
{
    let v = seq![e];
    assert(v.len() == 1);
    assert(v.drop_last() =~= Seq::<EventView>::empty());
    assert(net_opens(Seq::<EventView>::empty()) == 0);
    assert(min_opens(Seq::<EventView>::empty()) == 0);
    assert(v.last() == e);
    assert(net_opens(v) == net_opens(v.drop_last()) + (if v.last() is BeginVariation {
        1int
    } else if v.last() is EndVariation {
        -1int
    } else {
        0int
    }));
    assert(min_opens(v) == (if min_opens(v.drop_last()) <= net_opens(v) {
        min_opens(v.drop_last())
    } else {
        net_opens(v)
    }));
}

proof fn lemma_closers_balance(d: int)
    requires
        0 <= d,
    ensures
        net_opens(closers(d)) == -d,
        min_opens(closers(d)) == -d,
    decreases d,
{
    if d > 0 {
        lemma_closers_balance(d - 1);
        let c = closers(d);
        assert(c == closers(d - 1).push(EventView::EndVariation));
        assert(c.len() == closers(d - 1).len() + 1);
        assert(c.drop_last() =~= closers(d - 1));
        assert(c.last() is EndVariation);
        assert(net_opens(c) == net_opens(c.drop_last()) - 1);
        assert(min_opens(c) == (if min_opens(c.drop_last()) <= net_opens(c) {
            min_opens(c.drop_last())
        } else {
            net_opens(c)
        }));
    } else {
        assert(closers(0).len() == 0);
        assert(closers(0) =~= Seq::<EventView>::empty());
    }
}

/// One movetext token moves the open count from `d` to its step depth, and
/// never dips below the smaller of the two.
proof fn lemma_step_balance(s: Seq<u8>, i: int, d: int)
    requires
        0 <= i < s.len(),
        0 <= d,
    ensures
        ({
            let st = movetext_step(s, i, d);
            &&& net_opens(st.events) == st.depth - d
            &&& min_opens(st.events) >= (if st.depth - d <= 0 {
                st.depth - d
            } else {
                0
            })
        }),
{
    let st = movetext_step(s, i, d);
    if st.events.len() == 0 {
    } else {
        assert(st.events.len() == 1);
        lemma_balance_single(st.events[0]);
        assert(st.events =~= seq![st.events[0]]);
    }
}

/// An error-free movetext section at depth `d` closes exactly the `d` open
/// variations and never closes one that is not open.
proof fn lemma_movetext_balance(s: Seq<u8>, i: int, d: int)
    requires
        0 <= i <= s.len(),
        0 <= d,
        movetext(s, i, d).err is None,
    ensures
        net_opens(movetext(s, i, d).events) == -d,
        min_opens(movetext(s, i, d).events) >= -d,
    decreases s.len() - i,
{
    if i >= s.len() {
        lemma_closers_balance(d);
    } else {
        lemma_movetext_step(s, i, d);
        lemma_step_balance(s, i, d);
        let st = movetext_step(s, i, d);
        if st.ended {
            lemma_closers_balance(st.depth);
            lemma_net_add(st.events, closers(st.depth));
            lemma_min_add(st.events, closers(st.depth));
        } else {
            lemma_movetext_balance(s, st.next, st.depth);
            let rest = movetext(s, st.next, st.depth);
            lemma_net_add(st.events, rest.events);
            lemma_min_add(st.events, rest.events);
        }
    }
}

// ---------------------------------------------------------------------------
// Counting events
// ---------------------------------------------------------------------------

proof fn lemma_filter_single(e: EventView, p: spec_fn(EventView) -> bool)
    ensures
        seq![e].filter(p).len() == if p(e) {
            1int
        } else {
            0int
        },
{
    reveal_with_fuel(Seq::<EventView>::filter, 2);
    assert(seq![e].drop_last() =~= Seq::<EventView>::empty());
    assert(seq![e].last() == e);
}

proof fn lemma_filter_none(a: Seq<EventView>, p: spec_fn(EventView) -> bool)
    requires
        forall|k: int| 0 <= k < a.len() ==> !p(#[trigger] a[k]),
    ensures
        a.filter(p).len() == 0,
    decreases a.len(),
{
    reveal_with_fuel(Seq::<EventView>::filter, 2);
    if a.len() > 0 {
        assert(!p(a.last()));
        lemma_filter_none(a.drop_last(), p);
    }
}

/// No events of a sequence are openings or closings of variations: the
/// sequence is neutral for the balance count.
proof fn lemma_neutral(a: Seq<EventView>)
    requires
        forall|k: int|
            0 <= k < a.len() ==> !(#[trigger] a[k] is BeginVariation) && !(a[k] is EndVariation),
    ensures
        net_opens(a) == 0,
        min_opens(a) == 0,
    decreases a.len(),
{
    if a.len() > 0 {
        assert(!(a.last() is BeginVariation) && !(a.last() is EndVariation));
        lemma_neutral(a.drop_last());
    }
}

// ---------------------------------------------------------------------------
// The shape of an accepted game's events
// ---------------------------------------------------------------------------

/// Every accepted game delivers exactly one begin-tags event, exactly one
/// begin-movetext event and exactly one end-game event; the first event is
/// the begin-tags, the last is the end-game; and the variation events in
/// between are balanced.
pub proof fn lemma_game_shape(s: Seq<u8>)
    requires
        game(s).present,
        game(s).err is None,
    ensures
        ({
            let evs = game(s).events;
            &&& evs.len() >= 3
            &&& evs[0] is BeginTags
            &&& evs.last() is EndGame
            &&& evs.filter(|e: EventView| e is BeginTags).len() == 1
            &&& evs.filter(|e: EventView| e is BeginMovetext).len() == 1
            &&& evs.filter(|e: EventView| e is EndGame).len() == 1
            &&& balanced(evs)
        }),
{
    let i0 = after_ws(s, after_bom(s));
    lemma_after_ws(s, after_bom(s));
    let su = s.skip(i0);
    let t = tags(su, 0);
    lemma_tags(su, 0);
    lemma_tags_events_shape(su, 0);
    let sm = su.skip(t.end);
    let m = movetext(sm, 0, 0);
    lemma_movetext(sm, 0, 0);
    lemma_movetext_events_shape(sm, 0, 0);
    lemma_movetext_balance(sm, 0, 0);
    let bt = seq![EventView::BeginTags];
    let bm = seq![EventView::BeginMovetext];
    let eg = seq![EventView::EndGame];
    let evs = game(s).events;
    assert(evs == bt + t.events + bm + m.events + eg);

    // position of the first and last event
    assert(evs[0] == bt[0]);
    assert(evs.last() == eg[0]) by {
        assert(evs.len() == 1 + t.events.len() + 1 + m.events.len() + 1);
    }

    // counts, one predicate at a time
    let p_bt = |e: EventView| e is BeginTags;
    let p_bm = |e: EventView| e is BeginMovetext;
    let p_eg = |e: EventView| e is EndGame;
    assert forall|p: spec_fn(EventView) -> bool|
        p == p_bt || p == p_bm || p == p_eg implies #[trigger] evs.filter(p).len() == seq![bt[0]].filter(
        p,
    ).len() + t.events.filter(p).len() + seq![bm[0]].filter(p).len() + m.events.filter(p).len()
        + seq![eg[0]].filter(p).len() by {
        Seq::filter_distributes_over_add(bt + t.events + bm + m.events, eg, p);
        Seq::filter_distributes_over_add(bt + t.events + bm, m.events, p);
        Seq::filter_distributes_over_add(bt + t.events, bm, p);
        Seq::filter_distributes_over_add(bt, t.events, p);
        assert(bt =~= seq![bt[0]]);
        assert(bm =~= seq![bm[0]]);
        assert(eg =~= seq![eg[0]]);
    }
    lemma_filter_single(EventView::BeginTags, p_bt);
    lemma_filter_single(EventView::BeginMovetext, p_bt);
    lemma_filter_single(EventView::EndGame, p_bt);
    lemma_filter_none(t.events, p_bt);
    lemma_filter_none(m.events, p_bt);
    lemma_filter_single(EventView::BeginTags, p_bm);
    lemma_filter_single(EventView::BeginMovetext, p_bm);
    lemma_filter_single(EventView::EndGame, p_bm);
    lemma_filter_none(t.events, p_bm);
    lemma_filter_none(m.events, p_bm);
    lemma_filter_single(EventView::BeginTags, p_eg);
    lemma_filter_single(EventView::BeginMovetext, p_eg);
    lemma_filter_single(EventView::EndGame, p_eg);
    lemma_filter_none(t.events, p_eg);
    lemma_filter_none(m.events, p_eg);

    // balance: the tag events and the three markers are neutral, and the
    // movetext events balance at depth zero
    lemma_neutral(bt);
    lemma_neutral(bm);
    lemma_neutral(eg);
    lemma_neutral(t.events);
    lemma_net_add(bt, t.events);
    lemma_min_add(bt, t.events);
    lemma_net_add(bt + t.events, bm);
    lemma_min_add(bt + t.events, bm);
    lemma_net_add(bt + t.events + bm, m.events);
    lemma_min_add(bt + t.events + bm, m.events);
    lemma_net_add(bt + t.events + bm + m.events, eg);
    lemma_min_add(bt + t.events + bm + m.events, eg);
}

// ---------------------------------------------------------------------------
// What a tag event may hold
// ---------------------------------------------------------------------------

/// A tag key as the reader reports it: free of quotes, newlines and
/// closing brackets.
pub open spec fn good_key(k: Seq<u8>) -> bool {
    forall|j: int| 0 <= j < k.len() ==> k[j] != 34 && k[j] != 10 && k[j] != 93
}

/// A tag value scanned from position `c` as the tag reader scans it: a
/// backslash escapes the byte after it, and no unescaped quote or newline
/// occurs.
pub open spec fn clean_value(v: Seq<u8>, c: int) -> bool
    decreases v.len() - c when 0 <= c
{
    if c >= v.len() {
        true
    } else if v[c] == 92 {
        c + 2 >= v.len() || clean_value(v, c + 2)
    } else {
        v[c] != 34 && v[c] != 10 && clean_value(v, c + 1)
    }
}

/// A span free of backslashes, quotes and newlines scans clean.
proof fn lemma_clean_range(v: Seq<u8>, c: int)
    requires
        0 <= c <= v.len(),
        forall|j: int| c <= j < v.len() ==> v[j] != 92 && v[j] != 34 && v[j] != 10,
    ensures
        clean_value(v, c),
    decreases v.len() - c,
{
    if c < v.len() {
        lemma_clean_range(v, c + 1);
    }
}

/// A clean scan is reached through a span free of backslashes, quotes and
/// newlines.
proof fn lemma_clean_prefix(v: Seq<u8>, c: int, m: int)
    requires
        0 <= c <= m <= v.len(),
        forall|j: int| c <= j < m ==> v[j] != 92 && v[j] != 34 && v[j] != 10,
        clean_value(v, m),
    ensures
        clean_value(v, c),
    decreases m - c,
{
    if c < m {
        lemma_clean_prefix(v, c + 1, m);
    }
}

/// The span a value scan accepts is clean: the scan's end is a quote or
/// newline, and everything before it is either plain or escaped.
proof fn lemma_scan_clean(s: Seq<u8>, base: int, cur: int, w: int, e: int)
    requires
        0 <= base <= cur <= w <= s.len(),
        tag_value_scan(s, cur, w) == ScanEnd::Quote(e) || tag_value_scan(s, cur, w)
            == ScanEnd::Newline(e),
    ensures
        clean_value(s.subrange(base, e), cur - base),
    decreases w - cur,
{
    lemma_tag_value_scan(s, cur, w);
    lemma_find_byte3(s, 92, 34, 10, cur);
    let j = find_byte3(s, 92, 34, 10, cur);
    let v = s.subrange(base, e);
    if s[j] == 34 || s[j] == 10 {
        // the scan ends here: everything from `cur` to the end is plain
        assert(e == j);
        assert forall|k: int| cur - base <= k < v.len() implies v[k] != 92 && v[k] != 34 && v[k]
            != 10 by {
            assert(v[k] == s[base + k]);
        }
        lemma_clean_range(v, cur - base);
    } else {
        // an escape: the scan resumes two bytes on
        assert(s[j] == 92);
        let cur2 = if j + 2 <= w {
            j + 2
        } else {
            w
        };
        if cur2 == w && j + 2 > w {
            // the scan from `w` finds nothing, contradicting the result
            lemma_tag_value_scan(s, w, w);
            lemma_find_byte3(s, 92, 34, 10, w);
            assert(tag_value_scan(s, w, w) == ScanEnd::Nowhere);
            assert(false);
        }
        assert(cur2 == j + 2);
        lemma_scan_clean(s, base, cur2, w, e);
        // from `cur` to the backslash everything is plain, the backslash
        // escapes its successor
        assert(clean_value(v, j + 2 - base));
        assert(j - base < v.len()) by {
            lemma_tag_value_scan(s, cur2, w);
        }
        assert(v[j - base] == s[j]);
        assert(clean_value(v, j - base));
        assert forall|k: int| cur - base <= k < j - base implies v[k] != 92 && v[k] != 34 && v[k]
            != 10 by {
            assert(v[k] == s[base + k]);
        }
        lemma_clean_prefix(v, cur - base, j - base);
    }
}

/// Every tag event of the tag section holds a key free of quotes, newlines
/// and brackets, and a value in which every quote or newline is escaped.
pub proof fn lemma_tags_events_clean(s: Seq<u8>, i: int)
    requires
        0 <= i <= s.len(),
    ensures
        forall|k: int|
            0 <= k < tags(s, i).events.len() ==> ((#[trigger] tags(s, i).events[k]) matches
                EventView::Tag(key, value) ==> good_key(key) && clean_value(value, 0)),
    decreases s.len() - i,
{
    if i < s.len() {
        if s[i] == 91 {
            let w = tag_window_end(s, i);
            lemma_find_byte3(s, 34, 10, 93, i + 1);
            let j = find_byte3(s, 34, 10, 93, i + 1);
            if j < w {
                if s[j] != 34 {
                    lemma_after_ket(s, j + 1);
                    lemma_tags_events_clean(s, after_ket(s, j + 1));
                } else {
                    let kk = if j > i + 1 && s[j - 1] == 32 {
                        j - 1
                    } else {
                        j
                    };
                    let key = s.subrange(i + 1, kk);
                    assert(good_key(key)) by {
                        assert forall|x: int| 0 <= x < key.len() implies key[x] != 34 && key[x]
                            != 10 && key[x] != 93 by {
                            assert(key[x] == s[i + 1 + x]);
                        }
                    }
                    lemma_tag_value_scan(s, j + 1, w);
                    match tag_value_scan(s, j + 1, w) {
                        ScanEnd::Quote(q) => {
                            lemma_scan_clean(s, j + 1, j + 1, w, q);
                            lemma_after_ket(s, q + 1);
                            lemma_tags_events_clean(s, after_ket(s, q + 1));
                        },
                        ScanEnd::Newline(n) => {
                            lemma_scan_clean(s, j + 1, j + 1, w, n);
                        },
                        ScanEnd::Nowhere => {},
                    }
                }
            }
        } else if s[i] == 37 {
            lemma_after_line(s, i);
            lemma_find_byte(s, 10, i);
            lemma_tags_events_clean(s, after_line(s, i));
        }
    }
}

// ---------------------------------------------------------------------------
// Counting the games of a stream
// ---------------------------------------------------------------------------

/// The events of a whole stream: game after game until nothing is left or
/// a framing error stops the reading.
pub open spec fn stream_events(s: Seq<u8>) -> Seq<EventView>
    decreases s.len() via stream_events_dec
{
    let g = game(s);
    if !g.present {
        seq![]
    } else if g.err is Some {
        g.events
    } else {
        g.events + stream_events(s.skip(g.end))
    }
}

#[via_fn]
proof fn stream_events_dec(s: Seq<u8>) {
    lemma_game(s);
    lemma_after_ws(s, after_bom(s));
}

/// How many games a stream yields before it ends or a framing error stops
/// it.
pub open spec fn games_count(s: Seq<u8>) -> int
    decreases s.len() via games_count_dec
{
    let g = game(s);
    if !g.present {
        0
    } else if g.err is Some {
        0
    } else {
        1 + games_count(s.skip(g.end))
    }
}

#[via_fn]
proof fn games_count_dec(s: Seq<u8>) {
    lemma_game(s);
    lemma_after_ws(s, after_bom(s));
}

/// Where reading games one after another leaves the reader: at the end of
/// the input, or at the end of the game whose framing failed.
pub open spec fn stream_end(s: Seq<u8>) -> int
    decreases s.len() via stream_end_dec
{
    let g = game(s);
    if !g.present {
        g.end
    } else if g.err is Some {
        g.end
    } else {
        g.end + stream_end(s.skip(g.end))
    }
}

#[via_fn]
proof fn stream_end_dec(s: Seq<u8>) {
    lemma_game(s);
    lemma_after_ws(s, after_bom(s));
}

/// The first framing error of the stream, if any.
pub open spec fn stream_err(s: Seq<u8>) -> Option<crate::types::ReadError>
    decreases s.len() via stream_err_dec
{
    let g = game(s);
    if !g.present {
        None
    } else if g.err is Some {
        g.err
    } else {
        stream_err(s.skip(g.end))
    }
}

#[via_fn]
proof fn stream_err_dec(s: Seq<u8>) {
    lemma_game(s);
    lemma_after_ws(s, after_bom(s));
}

/// The reader's stop position is inside the input, and it is the input's
/// end exactly when no framing error occurs.
pub proof fn lemma_stream_end(s: Seq<u8>)
    ensures
        0 <= stream_end(s) <= s.len(),
        stream_err(s) is None ==> stream_end(s) == s.len(),
    decreases s.len(),
{
    let g = game(s);
    lemma_game(s);
    lemma_after_ws(s, after_bom(s));
    if g.present && g.err is None {
        lemma_stream_end(s.skip(g.end));
    }
}

/// Reading a stream to its end delivers exactly one end-game event per
/// error-free game it holds.
pub proof fn lemma_stream_game_count(s: Seq<u8>)
    ensures
        stream_events(s).filter(|e: EventView| e is EndGame).len() == games_count(s),
    decreases s.len(),
{
    let p_eg = |e: EventView| e is EndGame;
    let g = game(s);
    lemma_game(s);
    lemma_after_ws(s, after_bom(s));
    if !g.present {
        lemma_filter_none(stream_events(s), p_eg);
    } else if g.err is Some {
        // an interrupted game never reaches its end event
        lemma_game_err_no_endgame(s);
        lemma_filter_none(g.events, p_eg);
    } else {
        lemma_stream_game_count(s.skip(g.end));
        Seq::filter_distributes_over_add(g.events, stream_events(s.skip(g.end)), p_eg);
        lemma_game_shape(s);
    }
}

/// A game cut short by a framing error emits no end-game event.
proof fn lemma_game_err_no_endgame(s: Seq<u8>)
    requires
        game(s).present,
        game(s).err is Some,
    ensures
        forall|k: int| 0 <= k < game(s).events.len() ==> !(#[trigger] game(s).events[k] is
            EndGame),
{
    let i0 = after_ws(s, after_bom(s));
    lemma_after_ws(s, after_bom(s));
    let su = s.skip(i0);
    let t = tags(su, 0);
    lemma_tags(su, 0);
    lemma_tags_events_shape(su, 0);
    if t.err is Some {
        let evs = game(s).events;
        assert(evs == seq![EventView::BeginTags] + t.events);
        assert forall|k: int| 0 <= k < evs.len() implies !(#[trigger] evs[k] is EndGame) by {
            if k > 0 {
                assert(evs[k] == t.events[k - 1]);
            }
        }
    } else {
        let sm = su.skip(t.end);
        let m = movetext(sm, 0, 0);
        lemma_movetext(sm, 0, 0);
        lemma_movetext_events_shape(sm, 0, 0);
        let evs = game(s).events;
        assert(evs == seq![EventView::BeginTags] + t.events + seq![EventView::BeginMovetext]
            + m.events);
        assert forall|k: int| 0 <= k < evs.len() implies !(#[trigger] evs[k] is EndGame) by {
            if 0 < k < 1 + t.events.len() {
                assert(evs[k] == t.events[k - 1]);
            } else if k > 1 + t.events.len() {
                assert(evs[k] == m.events[k - 2 - t.events.len()]);
            }
        }
    }
}

// ---------------------------------------------------------------------------
// Scanners are stable under extending the input
// ---------------------------------------------------------------------------

proof fn lemma_find_byte_ext(u: Seq<u8>, w: Seq<u8>, b: u8, i: int)
    requires
        0 <= i <= u.len(),
    ensures
        find_byte(u, b, i) < u.len() ==> find_byte(u + w, b, i) == find_byte(u, b, i),
        find_byte(u, b, i) == u.len() ==> find_byte(u + w, b, i) == u.len() + find_byte(w, b, 0),
{
    lemma_find_byte(u, b, i);
    lemma_find_byte(w, b, 0);
    lemma_find_byte(u + w, b, i);
    let c = u + w;
    let fu = find_byte(u, b, i);
    let fc = find_byte(c, b, i);
    let fw = find_byte(w, b, 0);
    if fu < u.len() {
        assert(c[fu] == u[fu]);
        assert forall|j: int| i <= j < fu implies c[j] != b by {
            assert(c[j] == u[j]);
        }
    } else {
        assert forall|j: int| i <= j < u.len() + fw implies c[j] != b by {
            if j < u.len() {
                assert(c[j] == u[j]);
            } else {
                assert(c[j] == w[j - u.len()]);
            }
        }
        if fw < w.len() {
            assert(c[u.len() + fw] == w[fw]);
        }
    }
}

proof fn lemma_find_byte3_ext(u: Seq<u8>, w: Seq<u8>, b1: u8, b2: u8, b3: u8, i: int)
    requires
        0 <= i <= u.len(),
        find_byte3(u, b1, b2, b3, i) < u.len(),
    ensures
        find_byte3(u + w, b1, b2, b3, i) == find_byte3(u, b1, b2, b3, i),
{
    lemma_find_byte3(u, b1, b2, b3, i);
    lemma_find_byte3(u + w, b1, b2, b3, i);
    let c = u + w;
    let fu = find_byte3(u, b1, b2, b3, i);
    assert(c[fu] == u[fu]);
    assert forall|j: int| i <= j < fu implies c[j] != b1 && c[j] != b2 && c[j] != b3 by {
        assert(c[j] == u[j]);
    }
}

/// With a terminator opening the extension, a token ends where it ended.
proof fn lemma_token_end_ext(u: Seq<u8>, w: Seq<u8>, i: int)
    requires
        0 <= i <= u.len(),
        w.len() > 0,
        is_terminator_byte(w[0]),
    ensures
        token_end(u + w, i) == token_end(u, i),
{
    lemma_token_end(u, i);
    lemma_token_end(u + w, i);
    let c = u + w;
    let fu = token_end(u, i);
    if fu < u.len() {
        assert(c[fu] == u[fu]);
    } else {
        assert(c[fu] == w[0]);
    }
    assert forall|j: int| i <= j < fu implies !is_terminator_byte(c[j]) by {
        assert(c[j] == u[j]);
    }
}

/// With a non-digit opening the extension, a digit run ends where it ended.
proof fn lemma_skip_digits_ext(u: Seq<u8>, w: Seq<u8>, i: int)
    requires
        0 <= i <= u.len(),
        w.len() > 0,
        !is_digit_byte(w[0]),
    ensures
        skip_digits(u + w, i) == skip_digits(u, i),
{
    lemma_skip_digits(u, i);
    lemma_skip_digits(u + w, i);
    let c = u + w;
    let fu = skip_digits(u, i);
    if fu < u.len() {
        assert(c[fu] == u[fu]);
    } else {
        assert(c[fu] == w[0]);
    }
    assert forall|j: int| i <= j < fu implies is_digit_byte(c[j]) by {
        assert(c[j] == u[j]);
    }
}

/// With a non-dot opening the extension, a dot run ends where it ended.
proof fn lemma_skip_dots_ext(u: Seq<u8>, w: Seq<u8>, i: int)
    requires
        0 <= i <= u.len(),
        w.len() > 0,
        w[0] != 46,
    ensures
        skip_dots(u + w, i) == skip_dots(u, i),
{
    lemma_skip_dots(u, i);
    lemma_skip_dots(u + w, i);
    let c = u + w;
    let fu = skip_dots(u, i);
    if fu < u.len() {
        assert(c[fu] == u[fu]);
    } else {
        assert(c[fu] == w[0]);
    }
    assert forall|j: int| i <= j < fu implies c[j] == 46 by {
        assert(c[j] == u[j]);
    }
}

/// An input whose lines are all closed: it is empty or ends with a line
/// feed.
pub open spec fn closed_lines(u: Seq<u8>) -> bool {
    u.len() == 0 || u.last() == 10
}

/// In a line-closed input, a line skipped from inside ends inside.
proof fn lemma_after_line_ext(u: Seq<u8>, w: Seq<u8>, i: int)
    requires
        0 <= i < u.len(),
        closed_lines(u),
    ensures
        after_line(u, i) <= u.len(),
        after_line(u + w, i) == after_line(u, i),
{
    lemma_find_byte(u, 10, i);
    assert(u[u.len() - 1] == 10);
    assert(find_byte(u, 10, i) < u.len());
    lemma_find_byte_ext(u, w, 10, i);
}

/// Whitespace skipping that stops inside the input stops at the same place
/// in the extended input; skipping that consumes a line-closed input whole
/// continues into the extension exactly.
proof fn lemma_after_ws_ext(u: Seq<u8>, w: Seq<u8>, i: int)
    requires
        0 <= i <= u.len(),
        closed_lines(u),
    ensures
        after_ws(u, i) < u.len() ==> after_ws(u + w, i) == after_ws(u, i),
        after_ws(u, i) == u.len() ==> after_ws(u + w, i) == u.len() + after_ws(w, 0),
    decreases u.len() - i,
{
    lemma_after_ws(u, i);
    let c = u + w;
    if i == u.len() {
        lemma_after_ws_shift(c, i);
        assert(c.skip(i) =~= w);
    } else if is_ws_byte(u[i]) {
        assert(c[i] == u[i]);
        lemma_after_ws_ext(u, w, i + 1);
    } else if u[i] == 37 {
        assert(c[i] == u[i]);
        lemma_after_line_ext(u, w, i + 1);
        lemma_after_line(u, i + 1);
        lemma_after_ws_ext(u, w, after_line(u, i + 1));
    } else {
        assert(c[i] == u[i]);
    }
}

/// The tag-line trailer of a line-closed input ends inside it, at the same
/// place in the extended input.
proof fn lemma_after_ket_ext(u: Seq<u8>, w: Seq<u8>, i: int)
    requires
        0 <= i < u.len(),
        closed_lines(u),
    ensures
        after_ket(u, i) <= u.len(),
        after_ket(u + w, i) == after_ket(u, i),
    decreases u.len() - i,
{
    lemma_after_ket(u, i);
    let c = u + w;
    assert(c[i] == u[i]);
    if u[i] == 32 || u[i] == 9 || u[i] == 13 || u[i] == 93 {
        if i + 1 == u.len() {
            // the last byte is a line feed, not a trailer byte
            assert(u[i] == 10);
            assert(false);
        }
        lemma_after_ket_ext(u, w, i + 1);
    } else if u[i] == 37 {
        lemma_after_line_ext(u, w, i + 1);
        lemma_after_line(u, i + 1);
    }
}

/// An error-free tag-value scan runs the same way in the extended input.
proof fn lemma_scan_ext(u: Seq<u8>, w: Seq<u8>, cur: int, wu: int, wc: int)
    requires
        0 <= cur <= wu <= u.len(),
        wu <= wc <= u.len() + w.len(),
        tag_value_scan(u, cur, wu) matches ScanEnd::Quote(_),
    ensures
        tag_value_scan(u + w, cur, wc) == tag_value_scan(u, cur, wu),
    decreases wu - cur,
{
    lemma_tag_value_scan(u, cur, wu);
    lemma_find_byte3(u, 92, 34, 10, cur);
    let j = find_byte3(u, 92, 34, 10, cur);
    assert(j < wu) by {
        if j >= wu {
            assert(tag_value_scan(u, cur, wu) is Nowhere);
        }
    }
    lemma_find_byte3_ext(u, w, 92, 34, 10, cur);
    let c = u + w;
    assert(c[j] == u[j]);
    if u[j] == 34 {
    } else if u[j] == 10 {
        assert(tag_value_scan(u, cur, wu) is Newline);
        assert(false);
    } else {
        // an escape; were it cut off by the window, the scan would end
        // nowhere
        let cur2 = if j + 2 <= wu {
            j + 2
        } else {
            wu
        };
        if j + 2 > wu {
            lemma_tag_value_scan(u, wu, wu);
            lemma_find_byte3(u, 92, 34, 10, wu);
            assert(tag_value_scan(u, wu, wu) is Nowhere);
            assert(false);
        }
        lemma_scan_ext(u, w, j + 2, wu, wc);
    }
}

/// A tag section in which every tag line is properly quoted: the reading
/// of such a section cannot depend on what follows the input.
pub open spec fn tags_clean(u: Seq<u8>, i: int) -> bool
    decreases u.len() - i when 0 <= i <= u.len() via tags_clean_dec
{
    if i >= u.len() {
        true
    } else if u[i] == 91 {
        let w = tag_window_end(u, i);
        let j = find_byte3(u, 34, 10, 93, i + 1);
        &&& j < w
        &&& u[j] == 34
        &&& (tag_value_scan(u, j + 1, w) matches ScanEnd::Quote(q) && tags_clean(
            u,
            after_ket(u, q + 1),
        ))
    } else if u[i] == 37 {
        tags_clean(u, after_line(u, i))
    } else {
        true
    }
}

#[via_fn]
proof fn tags_clean_dec(u: Seq<u8>, i: int) {
    if 0 <= i < u.len() {
        if u[i] == 91 {
            let w = tag_window_end(u, i);
            lemma_find_byte3(u, 34, 10, 93, i + 1);
            let j = find_byte3(u, 34, 10, 93, i + 1);
            if j < w && u[j] == 34 {
                lemma_tag_value_scan(u, j + 1, w);
                match tag_value_scan(u, j + 1, w) {
                    ScanEnd::Quote(q) => {
                        lemma_after_ket(u, q + 1);
                    },
                    _ => {},
                }
            }
        } else if u[i] == 37 {
            lemma_after_line(u, i);
            lemma_find_byte(u, 10, i);
        }
    }
}

/// A clean tag section reports no error.
proof fn lemma_tags_clean_no_err(u: Seq<u8>, i: int)
    requires
        0 <= i <= u.len(),
        tags_clean(u, i),
    ensures
        tags(u, i).err is None,
    decreases u.len() - i,
{
    if i < u.len() {
        if u[i] == 91 {
            let w = tag_window_end(u, i);
            lemma_find_byte3(u, 34, 10, 93, i + 1);
            let j = find_byte3(u, 34, 10, 93, i + 1);
            lemma_tag_value_scan(u, j + 1, w);
            match tag_value_scan(u, j + 1, w) {
                ScanEnd::Quote(q) => {
                    lemma_after_ket(u, q + 1);
                    lemma_tags_clean_no_err(u, after_ket(u, q + 1));
                },
                _ => {},
            }
        } else if u[i] == 37 {
            lemma_after_line(u, i);
            lemma_find_byte(u, 10, i);
            lemma_tags_clean_no_err(u, after_line(u, i));
        }
    }
}

/// A clean tag section parses the same way in the extended input, provided
/// the extension opens with a byte that also ends the section.
proof fn lemma_tags_ext(u: Seq<u8>, w: Seq<u8>, i: int)
    requires
        0 <= i <= u.len(),
        closed_lines(u),
        w.len() > 0,
        w[0] == 10,
        tags_clean(u, i),
    ensures
        tags(u + w, i) == tags(u, i),
        tags(u, i).end <= u.len(),
    decreases u.len() - i,
{
    lemma_tags(u, i);
    let c = u + w;
    if i == u.len() {
        // the extension's first byte is no tag opener, so the section still
        // ends here
        assert(c[i] == w[0]);
    } else {
        assert(c[i] == u[i]);
        if u[i] == 91 {
            let wu = tag_window_end(u, i);
            let wc = tag_window_end(c, i);
            lemma_find_byte3(u, 34, 10, 93, i + 1);
            let j = find_byte3(u, 34, 10, 93, i + 1);
            lemma_find_byte3_ext(u, w, 34, 10, 93, i + 1);
            assert(j < wc);
            assert(c[j] == u[j]);
            lemma_tag_value_scan(u, j + 1, wu);
            match tag_value_scan(u, j + 1, wu) {
                ScanEnd::Quote(q) => {
                    lemma_scan_ext(u, w, j + 1, wu, wc);
                    // the key and the value lie inside `u`
                    assert(c.subrange(i + 1, if j > i + 1 && c[j - 1] == 32 {
                        j - 1
                    } else {
                        j
                    }) =~= u.subrange(i + 1, if j > i + 1 && u[j - 1] == 32 {
                        j - 1
                    } else {
                        j
                    }));
                    assert(c.subrange(j + 1, q) =~= u.subrange(j + 1, q));
                    // the closing quote is not the final line feed
                    assert(q < u.len());
                    lemma_after_ket_ext(u, w, q + 1);
                    lemma_after_ket(u, q + 1);
                    lemma_tags_ext(u, w, after_ket(u, q + 1));
                },
                ScanEnd::Newline(_) => {
                    assert(false);
                },
                ScanEnd::Nowhere => {
                    assert(false);
                },
            }
        } else if u[i] == 37 {
            lemma_after_line_ext(u, w, i);
            lemma_after_line(u, i);
            lemma_find_byte(u, 10, i);
            lemma_tags_ext(u, w, after_line(u, i));
        }
    }
}

/// An error-free movetext section parses the same way in the extended
/// input, provided the extension opens with a blank line; its end moves at
/// most one byte, onto the extension's first line feed, and only when the
/// section began at the very end of the input.
#[verifier::rlimit(100)]
proof fn lemma_movetext_ext(u: Seq<u8>, w: Seq<u8>, i: int, d: int)
    requires
        0 <= i <= u.len(),
        0 <= d,
        closed_lines(u),
        w.len() >= 2,
        w[0] == 10,
        w[1] == 10,
        movetext(u, i, d).err is None,
    ensures
        movetext(u + w, i, d).events == movetext(u, i, d).events,
        movetext(u + w, i, d).err is None,
        movetext(u, i, d).end <= u.len(),
        movetext(u + w, i, d).end == movetext(u, i, d).end || (movetext(u, i, d).end == u.len()
            && movetext(u + w, i, d).end == u.len() + 1),
    decreases u.len() - i,
{
    lemma_movetext(u, i, d);
    let c = u + w;
    if i == u.len() {
        // the input is spent: the extension's blank line ends the movetext
        // at once, emitting the same closing events
        assert(c[i] == w[0] && c[i + 1] == w[1]);
        let stc = movetext_step(c, i, d);
        assert(stc.ended && stc.next == i + 1 && stc.depth == d && stc.err is None);
        assert(stc.events =~= Seq::<EventView>::empty());
        assert(movetext(c, i, d).events =~= closers(d));
        assert(movetext(u, i, d).events =~= closers(d));
    } else {
        lemma_movetext_step(u, i, d);
        let stu = movetext_step(u, i, d);
        assert(stu.err is None) by {
            if stu.err is Some {
                assert(movetext(u, i, d).err == stu.err);
            }
        }
        let b = u[i];
        assert(c[i] == b);
        assert(u.last() == 10);
        if b == 10 && i + 1 == u.len() {
            // the final line feed: alone it just ends the input; with the
            // extension's blank line it ends the game at the same place
            let stc = movetext_step(c, i, d);
            assert(c[i + 1] == w[0]);
            assert(stc.ended && stc.next == i + 1 && stc.depth == d && stc.err is None);
            assert(stc.events =~= Seq::<EventView>::empty());
            assert(movetext(c, i, d).events =~= closers(d));
            assert(movetext(c, i, d).end == i + 1);
            assert(stu.next == i + 1 && !stu.ended && stu.depth == d);
            assert(stu.events =~= Seq::<EventView>::empty());
            assert(movetext(u, i + 1, d).events == closers(d));
            assert(movetext(u, i, d).events =~= Seq::<EventView>::empty() + closers(d));
            assert(movetext(u, i, d).events =~= closers(d));
            assert(movetext(u, i, d).end == i + 1);
        } else {
            // every other token reads only bytes of `u`, or sees the
            // extension's line feeds where it would have seen the end of
            // the input
            assert(movetext_step(c, i, d) =~~= stu) by {
                if b == 123 {
                    lemma_find_byte(u, 125, i + 1);
                    let j = find_byte(u, 125, i + 1);
                    assert(j < u.len() && j < i + 1 + 4096) by {
                        if !(j < u.len() && j < i + 1 + 4096) {
                            assert(stu.err is Some);
                        }
                    }
                    lemma_find_byte_ext(u, w, 125, i + 1);
                    assert(c.subrange(i + 1, j) =~= u.subrange(i + 1, j));
                } else if b == 10 {
                    assert(i + 1 < u.len());
                    assert(c[i + 1] == u[i + 1]);
                    if u[i + 1] == 37 {
                        lemma_after_line_ext(u, w, i + 2);
                    } else if u[i + 1] == 13 {
                        assert(i + 2 < u.len());
                        assert(c[i + 2] == u[i + 2]);
                    }
                } else if b == 59 {
                    lemma_find_byte(u, 10, i + 1);
                    assert(find_byte(u, 10, i + 1) < u.len());
                    lemma_find_byte_ext(u, w, 10, i + 1);
                } else if b == 48 || b == 49 {
                    if b == 49 && !has2(u, i + 1, 45, 48) && !has_draw_tail(u, i + 1) {
                        lemma_skip_digits(u, i + 1);
                        lemma_skip_digits_ext(u, w, i + 1);
                        lemma_skip_dots_ext(u, w, skip_digits(u, i + 1));
                    } else if b == 48 && !has2(u, i + 1, 45, 49) && !has2(u, i + 1, 45, 48) {
                        lemma_token_end_ext(u, w, i + 1);
                    }
                } else if 50 <= b && b <= 57 {
                    lemma_skip_digits(u, i + 1);
                    lemma_skip_digits_ext(u, w, i + 1);
                    lemma_skip_dots_ext(u, w, skip_digits(u, i + 1));
                } else if b == 36 {
                    lemma_token_end(u, i + 1);
                    lemma_token_end_ext(u, w, i + 1);
                    assert(c.subrange(i + 1, token_end(u, i + 1)) =~= u.subrange(
                        i + 1,
                        token_end(u, i + 1),
                    ));
                } else if is_san_start(b) {
                    lemma_token_end(u, i + 1);
                    lemma_token_end_ext(u, w, i + 1);
                    assert(c.subrange(i, token_end(u, i + 1)) =~= u.subrange(
                        i,
                        token_end(u, i + 1),
                    ));
                }
            }
            if stu.ended {
            } else {
                lemma_movetext_ext(u, w, stu.next, stu.depth);
            }
        }
    }
}

/// The byte-order-mark test gives the same answer on the extended input.
proof fn lemma_bom_ext(u: Seq<u8>, w: Seq<u8>)
    requires
        w.len() >= 2,
        w[0] == 10,
        w[1] == 10,
    ensures
        after_bom(u + w) == after_bom(u),
{
    let c = u + w;
    if u.len() >= 3 {
        assert(c[0] == u[0] && c[1] == u[1] && c[2] == u[2]);
        assert(has_bom(c) == has_bom(u));
    } else {
        assert(!has_bom(u));
        if u.len() == 0 {
            assert(c[0] == w[0]);
        } else if u.len() == 1 {
            assert(c[1] == w[0]);
        } else {
            assert(c[2] == w[0]);
        }
        assert(!has_bom(c));
    }
}

/// An accepted, clean game parses the same way in the extended input: the
/// same events, and the same leftover, unless the game ran to the very end
/// of the input, in which case the leftover is the extension less its
/// leading whitespace.
#[verifier::rlimit(100)]
proof fn lemma_game_ext(u: Seq<u8>, w: Seq<u8>)
    requires
        closed_lines(u),
        w.len() >= 2,
        w[0] == 10,
        w[1] == 10,
        game(u).present,
        game(u).err is None,
        tags_clean(u.skip(after_ws(u, after_bom(u))), 0),
    ensures
        game(u + w).present,
        game(u + w).err is None,
        game(u + w).events == game(u).events,
        game(u).end <= u.len(),
        u.skip(game(u).end).len() > 0 ==> game(u + w).end == game(u).end,
        u.skip(game(u).end).len() == 0 ==> (u + w).skip(game(u + w).end) == w.skip(
            after_ws(w, 0),
        ),
{
    let c = u + w;
    lemma_bom_ext(u, w);
    let ab = after_bom(u);
    lemma_after_ws(u, ab);
    let i0 = after_ws(u, ab);
    assert(i0 < u.len());
    lemma_after_ws_ext(u, w, ab);
    assert(after_ws(c, ab) == i0);
    let su = u.skip(i0);
    let suc = c.skip(i0);
    assert(suc =~= su + w);
    assert(su.len() > 0);
    assert(su.last() == u.last());
    let t = tags(su, 0);
    lemma_tags_clean_no_err(su, 0);
    lemma_tags(su, 0);
    lemma_tags_ext(su, w, 0);
    assert(tags(suc, 0) =~~= t);
    let sm = su.skip(t.end);
    let smc = suc.skip(t.end);
    assert(smc =~= sm + w);
    let m = movetext(sm, 0, 0);
    lemma_movetext(sm, 0, 0);
    assert(m.err is None);
    assert(closed_lines(sm)) by {
        if sm.len() > 0 {
            assert(sm.last() == su.last());
        }
    }
    lemma_movetext_ext(sm, w, 0, 0);
    let mc = movetext(smc, 0, 0);
    assert(mc.events == m.events && mc.err is None);
    assert(game(c).events =~= game(u).events);
    // the leftover after the game
    let aw = after_ws(sm, m.end);
    lemma_after_ws(sm, m.end);
    assert(game(u).end == i0 + t.end + aw);
    let ru = u.skip(game(u).end);
    assert(ru =~= sm.skip(aw));
    if ru.len() > 0 {
        // the trailing whitespace stops inside the input, so the movetext
        // end is inside too and nothing of the extension is consumed
        assert(aw < sm.len());
        assert(m.end < sm.len());
        assert(mc.end == m.end);
        lemma_after_ws_ext(sm, w, m.end);
        assert(after_ws(smc, mc.end) == aw);
        assert(game(c).end == game(u).end);
    } else {
        // the game consumed the input whole; the extension's blank line is
        // whitespace before whatever comes next
        assert(aw == sm.len());
        if mc.end == m.end {
            lemma_after_ws_ext(sm, w, m.end);
            lemma_after_ws(w, 0);
            assert(after_ws(smc, mc.end) == sm.len() + after_ws(w, 0));
            assert(sm.len() == u.len() - i0 - t.end);
            assert(game(c).end == u.len() + after_ws(w, 0));
            assert(c.skip(game(c).end) =~= w.skip(after_ws(w, 0)));
        } else {
            // the movetext end moved onto the extension's first line feed
            assert(m.end == sm.len() && mc.end == sm.len() + 1);
            lemma_after_ws_shift(smc, sm.len() as int + 1);
            assert(smc.skip(sm.len() as int + 1) =~= w.skip(1));
            lemma_after_ws_shift(w, 1);
            lemma_after_ws(w.skip(1), 0);
            lemma_after_ws(w, 0);
            assert(w.skip(1).skip(0) =~= w.skip(1));
            assert(after_ws(w, 0) == after_ws(w, 1)) by {
                assert(is_ws_byte(w[0]));
            }
            assert(after_ws(w, 1) == 1 + after_ws(w.skip(1), 0));
            assert(after_ws(smc, mc.end) == sm.len() + 1 + after_ws(w.skip(1), 0));
            assert(sm.len() == u.len() - i0 - t.end);
            assert(game(c).end == u.len() + 1 + after_ws(w.skip(1), 0));
            assert(game(c).end == u.len() + after_ws(w, 0));
            assert(c.skip(game(c).end) =~= w.skip(after_ws(w, 0)));
        }
    }
}

/// Every game of the stream is accepted and every tag line of it is
/// properly quoted, to the end of the stream.
pub open spec fn stream_ok(s: Seq<u8>) -> bool
    decreases s.len() via stream_ok_dec
{
    let g = game(s);
    ||| !g.present
    ||| (g.err is None && tags_clean(s.skip(after_ws(s, after_bom(s))), 0) && stream_ok(
        s.skip(g.end),
    ))
}

#[via_fn]
proof fn stream_ok_dec(s: Seq<u8>) {
    lemma_game(s);
    lemma_after_ws(s, after_bom(s));
}

/// Reading `u`, a blank line, then the stream `s` delivers the events of
/// `u` followed by the events of `s`.
proof fn lemma_stream_repeat(u: Seq<u8>, s: Seq<u8>)
    requires
        closed_lines(u),
        stream_ok(u),
        after_bom(s) == 0,
        after_ws(s, 0) == 0,
    ensures
        stream_events(u + (seq![10u8, 10u8] + s)) == stream_events(u) + stream_events(s),
    decreases u.len(),
{
    let w = seq![10u8, 10u8] + s;
    assert(w[0] == 10 && w[1] == 10);
    let x = u + w;
    let g = game(u);
    lemma_game(u);
    lemma_after_ws(u, after_bom(u));
    // the blank line is whitespace, so skipping whitespace in the
    // extension lands at the start of `s`
    assert(after_ws(w, 0) == 2) by {
        assert(is_ws_byte(w[0]) && is_ws_byte(w[1]));
        assert(after_ws(w, 0) == after_ws(w, 1));
        assert(after_ws(w, 1) == after_ws(w, 2));
        lemma_after_ws_shift(w, 2);
        assert(w.skip(2) =~= s);
        assert(after_ws(w, 2) == 2 + after_ws(s, 0));
    }
    if !g.present {
        // only whitespace remained of `u`: the whole stream of `x` is the
        // stream of `s`
        assert(stream_events(u) =~= Seq::<EventView>::empty());
        lemma_bom_ext(u, w);
        let ab = after_bom(u);
        assert(after_ws(u, ab) == u.len());
        lemma_after_ws_ext(u, w, ab);
        assert(after_ws(x, ab) == u.len() + 2);
        let sux = x.skip(u.len() as int + 2);
        assert(sux =~= s);
        lemma_stream_align(x, s, u.len() as int + 2);
        assert(stream_events(x) =~= Seq::<EventView>::empty() + stream_events(s));
    } else {
        assert(g.err is None && tags_clean(u.skip(after_ws(u, after_bom(u))), 0) && stream_ok(
            u.skip(g.end),
        ));
        lemma_game_ext(u, w);
        let ru = u.skip(g.end);
        assert(stream_events(u) == g.events + stream_events(ru));
        if ru.len() > 0 {
            assert(closed_lines(ru)) by {
                assert(ru.last() == u.last());
            }
            lemma_stream_repeat(ru, s);
            assert(x.skip(game(x).end) =~= ru + w);
            assert(stream_events(x) == g.events + stream_events(ru + w));
            assert(g.events + (stream_events(ru) + stream_events(s)) =~= (g.events
                + stream_events(ru)) + stream_events(s));
        } else {
            assert(stream_events(ru) =~= Seq::<EventView>::empty());
            assert(x.skip(game(x).end) == w.skip(2));
            assert(w.skip(2) =~= s);
            assert(stream_events(x) == g.events + stream_events(s));
            assert(g.events + (Seq::<EventView>::empty() + stream_events(s)) =~= g.events
                + stream_events(s));
            assert(stream_events(u) =~= g.events);
        }
    }
}

/// Two streams whose remainders after the leading whitespace are the same
/// bytes deliver the same events.
proof fn lemma_stream_align(x: Seq<u8>, y: Seq<u8>, ix: int)
    requires
        0 <= ix <= x.len(),
        after_ws(x, after_bom(x)) == ix,
        after_bom(y) == 0,
        after_ws(y, 0) == 0,
        x.skip(ix) == y,
    ensures
        stream_events(x) == stream_events(y),
{
    let gx = game(x);
    let gy = game(y);
    lemma_game(x);
    lemma_game(y);
    if ix == x.len() {
        assert(y.len() == 0);
        assert(!gx.present && !gy.present);
    } else {
        let sux = x.skip(ix);
        let suy = y.skip(0);
        assert(suy =~= y);
        assert(sux == suy);
        assert(gx.present && gy.present);
        assert(gx.events =~= gy.events);
        assert(gx.err == gy.err);
        if gx.err is None {
            let t = tags(sux, 0);
            lemma_tags(sux, 0);
            let sm = sux.skip(t.end);
            let m = movetext(sm, 0, 0);
            lemma_movetext(sm, 0, 0);
            lemma_after_ws(sm, m.end);
            assert(x.skip(gx.end) =~= sm.skip(after_ws(sm, m.end)));
            assert(y.skip(gy.end) =~= sm.skip(after_ws(sm, m.end)));
            assert(x.skip(gx.end) == y.skip(gy.end));
        }
    }
}

/// Reading a stream, a blank line, and the same stream again delivers the
/// events of the stream twice.  This needs the stream's games accepted and
/// its tag lines properly quoted, its last line closed by a line feed, and
/// no leading whitespace or byte-order mark.
pub proof fn lemma_repeat_stream(s: Seq<u8>)
    requires
        closed_lines(s),
        stream_ok(s),
        after_bom(s) == 0,
        after_ws(s, 0) == 0,
    ensures
        stream_events(s + (seq![10u8, 10u8] + s)) == stream_events(s) + stream_events(s),
{
    lemma_stream_repeat(s, s);
}

} // verus!
