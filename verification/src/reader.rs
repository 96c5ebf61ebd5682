//! The streaming PGN reader.
//!
//! A [`BufferedReader`] owns its input bytes and a [`Buffer`] window over
//! them; it pulls bytes into the window as the grammar needs lookahead and
//! consumes them from the front.  The view of a reader is the sequence of
//! bytes it has not yet consumed, and every operation states against
//! [`crate::model`] exactly which prefix it consumes and which events it
//! produces.

use vstd::prelude::*;

use crate::buffer::Buffer;
use crate::model::{
    after_bom, after_ket, after_line, after_ws, closers, find_byte, find_byte3, game,
    game_reaches, has2, has_bom, has_draw_tail, is_san_start, is_terminator_byte,
    lemma_after_ket, lemma_after_ket_shift, lemma_after_line, lemma_after_line_shift,
    lemma_after_ws, lemma_after_ws_shift, lemma_closers_front, lemma_find_byte,
    lemma_find_byte3_window, lemma_find_byte_restart, lemma_find_byte_shift,
    lemma_find_byte_window, lemma_game, lemma_movetext, lemma_movetext_reaches_step,
    lemma_movetext_step, lemma_skip_digits, lemma_skip_digits_shift, lemma_skip_dots,
    lemma_skip_dots_shift, lemma_tags, lemma_tags_reaches_trans, lemma_token_end,
    lemma_token_end_shift, movetext, movetext_reaches, movetext_step, skip_digits, skip_dots,
    tag_value_scan, tag_window_end, tags, tags_reaches, token_end, ScanEnd, MAX_COMMENT_LENGTH,
    MAX_TAG_LINE_LENGTH,
};
use crate::laws::{lemma_stream_end, stream_end, stream_err};
use crate::trusted::{find_first, find_first3, parse_san, parse_u16};
use crate::types::{
    lemma_views_len, lemma_views_push, views, CastlingSide, Event, EventView, Nag, Outcome, RawComment, RawTag,
    ReadError, SanToken, SanView, Skip, Suffix,
};
use crate::visitor::Visitor;

verus! {

/// A buffered reader over one PGN byte stream.
pub struct BufferedReader {
    src: Vec<u8>,
    spos: usize,
    buffer: Buffer,
    max_tag_line_length: usize,
    max_comment_length: usize,
}

impl View for BufferedReader {
    type V = Seq<u8>;

    /// The bytes not yet consumed: the buffered window followed by what has
    /// not been pulled from the source.
    closed spec fn view(&self) -> Seq<u8> {
        self.buffer@ + self.src@.skip(self.spos as int)
    }
}

impl BufferedReader {
    /// The reader's invariant: the window and the source cursor are sound,
    /// and the two framing limits hold their documented defaults.
    pub closed spec fn wf(&self) -> bool {
        &&& self.buffer.wf()
        &&& self.spos <= self.src@.len()
        &&& self.src@.len() <= usize::MAX
        &&& self.buffer@.len() <= self.spos
        &&& self.max_tag_line_length == MAX_TAG_LINE_LENGTH
        &&& self.max_comment_length == MAX_COMMENT_LENGTH
    }

    /// The remaining input is no longer than the source it came from.
    proof fn lemma_len_bound(&self)
        requires
            self.wf(),
        ensures
            self@.len() <= usize::MAX,
    {
    }

    /// How many bytes stand in the buffered window.
    closed spec fn avail(&self) -> int {
        self.buffer@.len() as int
    }

    /// The buffered window is a prefix of the remaining input.
    proof fn lemma_prefix(&self)
        requires
            self.wf(),
        ensures
            self.avail() <= self@.len(),
            forall|k: int| 0 <= k < self.avail() ==> self.buffer@[k] == self@[k],
    {
    }

    /// A reader over the given input bytes.
    pub fn new(input: Vec<u8>) -> (r: BufferedReader)
        ensures
            r.wf(),
            r@ == input@,
    {
        let n = input.len();
        let r = BufferedReader {
            src: input,
            spos: 0,
            buffer: Buffer::new(),
            max_tag_line_length: MAX_TAG_LINE_LENGTH,
            max_comment_length: MAX_COMMENT_LENGTH,
        };
        proof {
            assert(r@ =~= r.src@);
        }
        r
    }

    /// The remaining bytes: what is buffered followed by what was never
    /// pulled from the source.
    pub fn into_inner(self) -> (r: Vec<u8>)
        requires
            self.wf(),
        ensures
            r@ == self@,
    {
        let BufferedReader { src, spos, buffer, .. } = self;
        let mut out = buffer.copy_range(0, buffer.len());
        let mut i: usize = spos;
        while i < src.len()
            invariant
                buffer.wf(),
                spos <= i <= src@.len(),
                out@ == buffer@ + src@.subrange(spos as int, i as int),
            decreases src@.len() - i,
        {
            out.push(src[i]);
            assert(out@ =~= buffer@ + src@.subrange(spos as int, i + 1 as int));
            i = i + 1;
        }
        proof {
            assert(src@.subrange(spos as int, src@.len() as int) =~= src@.skip(spos as int));
        }
        out
    }

    /// Pull bytes from the source until at least `n` are buffered or the
    /// source is exhausted.  The window is compacted before growing.
    fn ensure_bytes(&mut self, n: usize)
        requires
            old(self).wf(),
        ensures
            final(self).wf(),
            final(self)@ == old(self)@,
            final(self).avail() >= n || final(self).avail() == final(self)@.len(),
            final(self).avail() >= old(self).avail(),
    {
        if self.buffer.len() < n && self.spos < self.src.len() {
            self.buffer.discard_data();
        }
        while self.buffer.len() < n && self.spos < self.src.len()
            invariant
                self.wf(),
                self@ == old(self)@,
                self.avail() >= old(self).avail(),
            decreases self.src@.len() - self.spos,
        {
            let ghost prev = self@;
            let b = self.src[self.spos];
            self.buffer.push_back(b);
            self.spos = self.spos + 1;
            proof {
                assert(self@ =~= prev);
            }
        }
        proof {
            if self.spos == self.src@.len() {
                assert(self@ =~= self.buffer@);
            }
        }
    }

    /// Pull the whole source into the window.
    fn ensure_all(&mut self)
        requires
            old(self).wf(),
        ensures
            final(self).wf(),
            final(self)@ == old(self)@,
            final(self).avail() == final(self)@.len(),
    {
        while self.spos < self.src.len()
            invariant
                self.wf(),
                self@ == old(self)@,
            decreases self.src@.len() - self.spos,
        {
            let ghost prev = self@;
            let b = self.src[self.spos];
            self.buffer.push_back(b);
            self.spos = self.spos + 1;
            proof {
                assert(self@ =~= prev);
            }
        }
        proof {
            assert(self@ =~= self.buffer@);
        }
    }

    /// How many bytes are buffered.
    fn avail_len(&self) -> (r: usize)
        requires
            self.wf(),
        ensures
            r == self.avail(),
    {
        self.buffer.len()
    }

    /// The buffered byte at offset `k`.
    fn byte_at(&self, k: usize) -> (r: u8)
        requires
            self.wf(),
            k < self.avail(),
        ensures
            r == self@[k as int],
    {
        proof {
            self.lemma_prefix();
        }
        self.buffer.get(k)
    }

    /// A slice of the buffered window.
    fn window(&self, from: usize, to: usize) -> (r: &[u8])
        requires
            self.wf(),
            from <= to <= self.avail(),
        ensures
            r@ == self@.subrange(from as int, to as int),
    {
        proof {
            self.lemma_prefix();
        }
        let r = self.buffer.slice(from, to);
        proof {
            assert(r@ =~= self@.subrange(from as int, to as int));
        }
        r
    }

    /// An owned copy of a range of the buffered window.
    fn copy_range(&self, from: usize, to: usize) -> (r: Vec<u8>)
        requires
            self.wf(),
            from <= to <= self.avail(),
        ensures
            r@ == self@.subrange(from as int, to as int),
    {
        proof {
            self.lemma_prefix();
        }
        let r = self.buffer.copy_range(from, to);
        proof {
            assert(r@ =~= self@.subrange(from as int, to as int));
        }
        r
    }

    /// Consume `k` bytes from the front of the remaining input.
    fn consume(&mut self, k: usize)
        requires
            old(self).wf(),
            k <= old(self)@.len(),
        ensures
            final(self).wf(),
            final(self)@ == old(self)@.skip(k as int),
    {
        self.ensure_bytes(k);
        let ghost pre = self@;
        self.buffer.consume(k);
        proof {
            assert(self@ =~= pre.skip(k as int));
        }
    }

    /// The byte at offset `k` of the remaining input, pulling as needed.
    fn lookahead(&mut self, k: usize) -> (r: Option<u8>)
        requires
            old(self).wf(),
            k < usize::MAX,
        ensures
            final(self).wf(),
            final(self)@ == old(self)@,
            match r {
                Some(b) => k < final(self)@.len() && b == final(self)@[k as int],
                None => final(self)@.len() <= k,
            },
    {
        self.ensure_bytes(k + 1);
        if k < self.avail_len() {
            Some(self.byte_at(k))
        } else {
            None
        }
    }

    /// Whether byte `b` stands at offset `k` of the remaining input.
    fn byte_at_is(&mut self, k: usize, b: u8) -> (r: bool)
        requires
            old(self).wf(),
            k < usize::MAX,
        ensures
            final(self).wf(),
            final(self)@ == old(self)@,
            r == (k < final(self)@.len() && final(self)@[k as int] == b),
    {
        match self.lookahead(k) {
            Some(x) => x == b,
            None => false,
        }
    }

    /// Advance to the next occurrence of `needle`, or to the end of the
    /// input if it does not occur; the needle itself is not consumed.
    fn skip_until(&mut self, needle: u8)
        requires
            old(self).wf(),
        ensures
            final(self).wf(),
            final(self)@ == old(self)@.skip(find_byte(old(self)@, needle, 0)),
    {
        self.ensure_all();
        let n = self.avail_len();
        let w = self.window(0, n);
        proof {
            assert(w@ =~= self@);
        }
        match find_first(needle, w) {
            Some(p) => {
                self.consume(p);
            },
            None => {
                self.consume(n);
            },
        }
    }

    /// Skip the rest of the current line, consuming its line feed.
    fn skip_line(&mut self)
        requires
            old(self).wf(),
        ensures
            final(self).wf(),
            final(self)@ == old(self)@.skip(after_line(old(self)@, 0)),
    {
        let ghost s0 = self@;
        self.skip_until(10);
        proof {
            lemma_find_byte(s0, 10, 0);
        }
        match self.lookahead(0) {
            Some(_) => {
                let ghost cur = self@;
                self.consume(1);
                proof {
                    assert(self@ =~= s0.skip(after_line(s0, 0)));
                }
            },
            None => {},
        }
    }

    /// Skip whitespace; a `%` met while skipping discards the rest of its
    /// line.
    fn skip_whitespace(&mut self)
        requires
            old(self).wf(),
        ensures
            final(self).wf(),
            final(self)@ == old(self)@.skip(after_ws(old(self)@, 0)),
    {
        let ghost s0 = self@;
        proof {
            lemma_after_ws_shift(s0, 0);
        }
        loop
            invariant
                self.wf(),
                s0.skip(after_ws(s0, 0)) == self@.skip(after_ws(self@, 0)),
            ensures
                self.wf(),
                self@ == s0.skip(after_ws(s0, 0)),
            decreases self@.len(),
        {
            let ghost cur = self@;
            match self.lookahead(0) {
                None => {
                    proof {
                        assert(after_ws(cur, 0) == 0);
                        assert(cur.skip(0) =~= cur);
                    }
                    break;
                },
                Some(b) => {
                    if b == 32 || b == 9 || b == 13 || b == 10 {
                        self.consume(1);
                        proof {
                            assert(cur.skip(1) =~= self@);
                            lemma_after_ws_shift(cur, 1);
                            lemma_after_ws(self@, 0);
                            assert(after_ws(cur, 0) == 1 + after_ws(self@, 0));
                            assert(cur.skip(after_ws(cur, 0)) =~= self@.skip(after_ws(self@, 0)));
                        }
                    } else if b == 37 {
                        self.consume(1);
                        let ghost mid = self@;
                        self.skip_line();
                        proof {
                            assert(cur.skip(1) =~= mid);
                            lemma_after_line_shift(cur, 1);
                            lemma_after_line(cur, 1);
                            assert(self@ =~= cur.skip(after_line(cur, 1)));
                            lemma_after_ws_shift(cur, after_line(cur, 1));
                            lemma_after_ws(self@, 0);
                            assert(after_ws(cur, 0) == after_ws(cur, after_line(cur, 1)));
                            assert(after_ws(cur, 0) == after_line(cur, 1) + after_ws(self@, 0));
                            assert(cur.skip(after_ws(cur, 0)) =~= self@.skip(after_ws(self@, 0)));
                        }
                    } else {
                        proof {
                            assert(after_ws(cur, 0) == 0);
                            assert(cur.skip(0) =~= cur);
                        }
                        break;
                    }
                },
            }
        }
    }

    /// Consume the closing trailer of a tag line: spaces, tabs, carriage
    /// returns and `]`, a `%` comment line, up to and including the line
    /// feed that ends the line.
    fn skip_ket(&mut self)
        requires
            old(self).wf(),
        ensures
            final(self).wf(),
            final(self)@ == old(self)@.skip(after_ket(old(self)@, 0)),
    {
        let ghost s0 = self@;
        loop
            invariant_except_break
                s0.skip(after_ket(s0, 0)) == self@.skip(after_ket(self@, 0)),
            invariant
                self.wf(),
            ensures
                self.wf(),
                self@ == s0.skip(after_ket(s0, 0)),
            decreases self@.len(),
        {
            let ghost cur = self@;
            match self.lookahead(0) {
                None => {
                    proof {
                        assert(after_ket(cur, 0) == 0);
                        assert(cur.skip(0) =~= cur);
                    }
                    break;
                },
                Some(b) => {
                    if b == 32 || b == 9 || b == 13 || b == 93 {
                        self.consume(1);
                        proof {
                            assert(cur.skip(1) =~= self@);
                            lemma_after_ket_shift(cur, 1);
                            lemma_after_ket(self@, 0);
                            assert(after_ket(cur, 0) == 1 + after_ket(self@, 0));
                            assert(cur.skip(after_ket(cur, 0)) =~= self@.skip(after_ket(self@,
                                0)));
                        }
                    } else if b == 37 {
                        self.consume(1);
                        let ghost mid = self@;
                        self.skip_line();
                        proof {
                            assert(cur.skip(1) =~= mid);
                            lemma_after_line_shift(cur, 1);
                            lemma_after_line(cur, 1);
                            assert(self@ =~= cur.skip(after_line(cur, 1)));
                            assert(after_ket(cur, 0) == after_line(cur, 1));
                            assert(self@ == cur.skip(after_ket(cur, 0)));
                        }
                        break;
                    } else if b == 10 {
                        self.consume(1);
                        proof {
                            assert(after_ket(cur, 0) == 1);
                            assert(cur.skip(1) =~= self@);
                            assert(self@ == cur.skip(after_ket(cur, 0)));
                        }
                        break;
                    } else {
                        proof {
                            assert(after_ket(cur, 0) == 0);
                            assert(cur.skip(0) =~= cur);
                        }
                        break;
                    }
                },
            }
        }
    }

    /// The first token terminator at or after `start` in the remaining
    /// input; the whole input up to it is left buffered.
    fn find_token_end(&mut self, start: usize) -> (r: usize)
        requires
            old(self).wf(),
            start <= old(self)@.len(),
        ensures
            final(self).wf(),
            final(self)@ == old(self)@,
            r == token_end(old(self)@, start as int),
            final(self).avail() == final(self)@.len(),
    {
        self.ensure_all();
        let n = self.avail_len();
        let mut i: usize = start;
        while i < n && !is_terminator(self.byte_at(i))
            invariant
                self.wf(),
                self@ == old(self)@,
                self.avail() == n == self@.len(),
                start <= i <= n,
                token_end(self@, start as int) == token_end(self@, i as int),
            decreases n - i,
        {
            proof {
                assert(token_end(self@, i as int) == token_end(self@, i + 1 as int));
            }
            i = i + 1;
        }
        proof {
            assert(token_end(self@, i as int) == i);
        }
        i
    }

    /// Consume a run of decimal digits.
    fn skip_digit_run(&mut self)
        requires
            old(self).wf(),
        ensures
            final(self).wf(),
            final(self)@ == old(self)@.skip(skip_digits(old(self)@, 0)),
    {
        let ghost s0 = self@;
        loop
            invariant
                self.wf(),
                s0.skip(skip_digits(s0, 0)) == self@.skip(skip_digits(self@, 0)),
            ensures
                self.wf(),
                self@ == s0.skip(skip_digits(s0, 0)),
            decreases self@.len(),
        {
            let ghost cur = self@;
            match self.lookahead(0) {
                Some(b) if 48 <= b && b <= 57 => {
                    self.consume(1);
                    proof {
                        assert(cur.skip(1) =~= self@);
                        lemma_skip_digits_shift(cur, 1);
                        crate::model::lemma_skip_digits(self@, 0);
                        assert(skip_digits(cur, 0) == 1 + skip_digits(self@, 0));
                        assert(cur.skip(skip_digits(cur, 0)) =~= self@.skip(skip_digits(self@,
                            0)));
                    }
                },
                _ => {
                    proof {
                        assert(skip_digits(cur, 0) == 0);
                        assert(cur.skip(0) =~= cur);
                    }
                    break;
                },
            }
        }
    }

    /// Consume a run of dots.
    fn skip_dot_run(&mut self)
        requires
            old(self).wf(),
        ensures
            final(self).wf(),
            final(self)@ == old(self)@.skip(skip_dots(old(self)@, 0)),
    {
        let ghost s0 = self@;
        loop
            invariant
                self.wf(),
                s0.skip(skip_dots(s0, 0)) == self@.skip(skip_dots(self@, 0)),
            ensures
                self.wf(),
                self@ == s0.skip(skip_dots(s0, 0)),
            decreases self@.len(),
        {
            let ghost cur = self@;
            match self.lookahead(0) {
                Some(46) => {
                    self.consume(1);
                    proof {
                        assert(cur.skip(1) =~= self@);
                        lemma_skip_dots_shift(cur, 1);
                        crate::model::lemma_skip_dots(self@, 0);
                        assert(skip_dots(cur, 0) == 1 + skip_dots(self@, 0));
                        assert(cur.skip(skip_dots(cur, 0)) =~= self@.skip(skip_dots(self@, 0)));
                    }
                },
                _ => {
                    proof {
                        assert(skip_dots(cur, 0) == 0);
                        assert(cur.skip(0) =~= cur);
                    }
                    break;
                },
            }
        }
    }

    /// Consume a leading UTF-8 byte-order mark, if one is present.
    fn skip_bom(&mut self)
        requires
            old(self).wf(),
        ensures
            final(self).wf(),
            final(self)@ == old(self)@.skip(after_bom(old(self)@)),
    {
        let ghost s0 = self@;
        let a = self.byte_at_is(0, 0xef);
        let b = self.byte_at_is(1, 0xbb);
        let c = self.byte_at_is(2, 0xbf);
        if a && b && c {
            self.consume(3);
        } else {
            proof {
                assert(!has_bom(s0));
                assert(s0.skip(0) =~= s0);
            }
        }
    }
}

/// How the scan of a quoted tag value ended, with positions relative to
/// the remaining input.
enum ValueScan {
    Quote(usize),
    Newline(usize),
    Nowhere,
}

impl BufferedReader {
    /// Scan a quoted tag value inside the window `[start, w)` of the
    /// remaining input.  `s` is the input the caller anchors positions in,
    /// at offset `off`.
    fn scan_tag_value(
        &self,
        start: usize,
        w: usize,
        Ghost(s): Ghost<Seq<u8>>,
        Ghost(off): Ghost<int>,
    ) -> (r: ValueScan)
        requires
            self.wf(),
            start <= w <= self.avail(),
            0 <= off <= s.len(),
            self@ == s.skip(off),
        ensures
            match r {
                ValueScan::Quote(q) => start <= q < w && tag_value_scan(
                    s,
                    off + start,
                    off + w,
                ) == ScanEnd::Quote(off + q),
                ValueScan::Newline(n) => start <= n < w && tag_value_scan(
                    s,
                    off + start,
                    off + w,
                ) == ScanEnd::Newline(off + n),
                ValueScan::Nowhere => tag_value_scan(s, off + start, off + w)
                    == ScanEnd::Nowhere,
            },
    {
        proof {
            self.lemma_prefix();
        }
        let mut cur = start;
        loop
            invariant
                self.wf(),
                self@ == s.skip(off),
                0 <= off <= s.len(),
                start <= cur <= w <= self.avail(),
                tag_value_scan(s, off + start, off + w) == tag_value_scan(s, off + cur, off + w),
            decreases w - cur,
        {
            let win = self.window(cur, w);
            proof {
                self.lemma_prefix();
                assert(win@ =~= s.subrange(off + cur, off + w));
                lemma_find_byte3_window(s, 92, 34, 10, off + cur, off + w);
            }
            match find_first3(92, 34, 10, win) {
                Some(p) => {
                    let b = self.byte_at(cur + p);
                    proof {
                        assert(b == s[off + cur + p]);
                        assert(find_byte3(s, 92, 34, 10, off + cur) == off + cur + p);
                    }
                    if b == 34 {
                        return ValueScan::Quote(cur + p);
                    } else if b == 10 {
                        return ValueScan::Newline(cur + p);
                    } else {
                        let jp = cur + p;
                        let next = if w - jp > 2 {
                            jp + 2
                        } else {
                            w
                        };
                        proof {
                            assert(tag_value_scan(s, off + cur, off + w) == tag_value_scan(
                                s,
                                off + next,
                                off + w,
                            ));
                        }
                        cur = next;
                    }
                },
                None => {
                    proof {
                        assert(find_byte3(s, 92, 34, 10, off + cur) >= off + w);
                    }
                    return ValueScan::Nowhere;
                },
            }
        }
    }

    /// Read the tag-pair section, appending one `Tag` event per tag line;
    /// returns the framing error, if one was reported.
    fn read_tags_events(&mut self, events: &mut Vec<Event>) -> (r: Option<ReadError>)
        requires
            old(self).wf(),
        ensures
            final(self).wf(),
            ({
                let o = tags(old(self)@, 0);
                &&& final(self)@ == old(self)@.skip(o.end)
                &&& views(final(events)@) == views(old(events)@) + o.events
                &&& r == o.err
            }),
    {
        let ghost s = self@;
        let ghost done0 = views(events@);
        let ghost mut i: int = 0;
        let ghost mut acc: Seq<EventView> = Seq::empty();
        proof {
            assert(views(events@) =~= done0 + acc);
            assert(acc + tags(s, i).events =~= tags(s, i).events);
        }
        loop
            invariant_except_break
                self.wf(),
                0 <= i <= s.len(),
                self@ == s.skip(i),
                tags(s, 0).end == tags(s, i).end,
                tags(s, 0).err == tags(s, i).err,
                tags(s, 0).events == acc + tags(s, i).events,
                views(events@) == done0 + acc,
            invariant
                s == old(self)@,
                done0 == views(old(events)@),
            ensures
                self.wf(),
                tags(s, 0).err is None,
                self@ == s.skip(tags(s, 0).end),
                views(events@) == done0 + tags(s, 0).events,
            decreases s.len() - i,
        {
            let ghost iprev = i;
            let r = self.tag_line(events, Ghost(s), Ghost(i));
            match r.0 {
                TagLineOut::More => {
                    proof {
                        let i2 = r.1@;
                        let news = r.2@;
                        assert((acc + (news + tags(s, i2).events)) =~= ((acc + news) + tags(
                            s,
                            i2,
                        ).events));
                        assert((done0 + acc) + news =~= done0 + (acc + news));
                        acc = acc + news;
                        i = i2;
                    }
                },
                TagLineOut::End => {
                    proof {
                        assert(acc + tags(s, i).events =~= acc);
                    }
                    break;
                },
                TagLineOut::Failed(e) => {
                    proof {
                        assert((done0 + acc) + tags(s, i).events =~= done0 + (acc + tags(
                            s,
                            i,
                        ).events));
                    }
                    return Some(e);
                },
            }
        }
        proof {
            assert(views(events@) =~= done0 + tags(s, 0).events);
        }
        None
    }
}

/// What one tag line did: the section continues, the section ended here,
/// or a framing error was reported.
enum TagLineOut {
    More,
    End,
    Failed(ReadError),
}

impl BufferedReader {
    /// Read one tag line of `s` at position `i`.  Returns how the section
    /// goes on, the position reached, and the views of the events pushed;
    /// at most one event is pushed per line.
    #[verifier::rlimit(100)]
    fn tag_line(
        &mut self,
        events: &mut Vec<Event>,
        Ghost(s): Ghost<Seq<u8>>,
        Ghost(i): Ghost<int>,
    ) -> (r: (TagLineOut, Ghost<int>, Ghost<Seq<EventView>>))
        requires
            old(self).wf(),
            0 <= i <= s.len(),
            old(self)@ == s.skip(i),
        ensures
            final(self).wf(),
            ({
                let i2 = r.1@;
                let news = r.2@;
                match r.0 {
                    TagLineOut::More => {
                        &&& i < i2 <= s.len()
                        &&& final(self)@ == s.skip(i2)
                        &&& tags(s, i).end == tags(s, i2).end
                        &&& tags(s, i).err == tags(s, i2).err
                        &&& tags(s, i).events == news + tags(s, i2).events
                        &&& views(final(events)@) == views(old(events)@) + news
                        &&& tags_reaches(s, i, i2)
                        &&& final(events)@.len() <= old(events)@.len() + 1
                    },
                    TagLineOut::End => {
                        &&& i2 == i
                        &&& final(self)@ == s.skip(i)
                        &&& tags(s, i).end == i
                        &&& tags(s, i).err is None
                        &&& tags(s, i).events == Seq::<EventView>::empty()
                        &&& final(events)@ == old(events)@
                    },
                    TagLineOut::Failed(e) => {
                        &&& final(self)@ == s.skip(tags(s, i).end)
                        &&& tags(s, i).err == Some(e)
                        &&& views(final(events)@) == views(old(events)@) + tags(s, i).events
                        &&& final(events)@.len() <= old(events)@.len() + 1
                    },
                }
            }),
    {
        match self.lookahead(0) {
            None => {
                proof {
                    assert(i == s.len());
                    assert(tags(s, i).events =~= Seq::<EventView>::empty());
                }
                let ghost none: Seq<EventView> = Seq::empty();
                (TagLineOut::End, Ghost(i), Ghost(none))
            },
            Some(b) => {
                if b == 91 {
                    proof {
                        assert(s[i] == 91);
                    }
                    self.ensure_bytes(MAX_TAG_LINE_LENGTH);
                    let al = self.avail_len();
                    let wrel: usize = if al < MAX_TAG_LINE_LENGTH {
                        al
                    } else {
                        MAX_TAG_LINE_LENGTH
                    };
                    proof {
                        self.lemma_prefix();
                        assert(self.avail() <= s.len() - i);
                        assert(i + wrel == tag_window_end(s, i));
                    }
                    let ghost w = tag_window_end(s, i);
                    let win = self.window(1, wrel);
                    proof {
                        assert(win@ =~= s.subrange(i + 1, w));
                        lemma_find_byte3_window(s, 34, 10, 93, i + 1, w);
                    }
                    match find_first3(34, 10, 93, win) {
                        None => {
                            proof {
                                assert(find_byte3(s, 34, 10, 93, i + 1) >= w);
                            }
                            self.consume(wrel);
                            proof {
                                assert(self@ =~= s.skip(w));
                            }
                            self.skip_line();
                            proof {
                                lemma_after_line_shift(s, w);
                                lemma_after_line(s, w);
                                assert(self@ =~= s.skip(after_line(s, w)));
                                assert(tags(s, i).end == after_line(s, w));
                                assert(tags(s, i).err == Some(ReadError::UnterminatedTag));
                                assert(tags(s, i).events =~= Seq::<EventView>::empty());
                                assert(views(events@) =~= views(events@) + tags(s, i).events);
                            }
                            let ghost i2 = after_line(s, w);
                            let ghost none: Seq<EventView> = Seq::empty();
                            (TagLineOut::Failed(ReadError::UnterminatedTag), Ghost(i2), Ghost(none))
                        },
                        Some(p) => {
                            let jrel = 1 + p;
                            proof {
                                assert(find_byte3(s, 34, 10, 93, i + 1) == i + jrel);
                            }
                            let bj = self.byte_at(jrel);
                            proof {
                                assert(bj == s[i + jrel]);
                            }
                            if bj != 34 {
                                self.consume(jrel + 1);
                                proof {
                                    assert(self@ =~= s.skip(i + jrel + 1));
                                }
                                self.skip_ket();
                                proof {
                                    lemma_after_ket_shift(s, i + jrel + 1);
                                    lemma_after_ket(s, i + jrel + 1);
                                    assert(self@ =~= s.skip(after_ket(s, i + jrel + 1)));
                                    let inew = after_ket(s, i + jrel + 1);
                                    assert(tags(s, i).events =~= Seq::<EventView>::empty() + tags(
                                        s,
                                        inew,
                                    ).events);
                                    assert(views(events@) =~= views(events@)
                                        + Seq::<EventView>::empty());
                                    assert(tags_reaches(s, inew, inew));
                                    assert(tags_reaches(s, i, inew));
                                }
                                let ghost i2 = after_ket(s, i + jrel + 1);
                                let ghost none: Seq<EventView> = Seq::empty();
                                (TagLineOut::More, Ghost(i2), Ghost(none))
                            } else {
                                let krel = if jrel > 1 && self.byte_at(jrel - 1) == 32 {
                                    jrel - 1
                                } else {
                                    jrel
                                };
                                let key = self.copy_range(1, krel);
                                proof {
                                    assert(key@ =~= s.subrange(i + 1, i + krel));
                                }
                                match self.scan_tag_value(jrel + 1, wrel, Ghost(s), Ghost(i)) {
                                    ValueScan::Quote(q) => {
                                        let value = self.copy_range(jrel + 1, q);
                                        proof {
                                            assert(value@ =~= s.subrange(i + jrel + 1, i + q));
                                        }
                                        let ghost ev = EventView::Tag(key@, value@);
                                        proof {
                                            lemma_views_push(
                                                events@,
                                                Event::Tag { key: key, value: RawTag(value) },
                                            );
                                        }
                                        let tag_event = Event::Tag { key, value: RawTag(value) };
                                        proof {
                                            assert(tag_event@ == ev);
                                        }
                                        events.push(tag_event);
                                        self.consume(q + 1);
                                        proof {
                                            assert(self@ =~= s.skip(i + q + 1));
                                        }
                                        self.skip_ket();
                                        proof {
                                            lemma_after_ket_shift(s, i + q + 1);
                                            lemma_after_ket(s, i + q + 1);
                                            assert(self@ =~= s.skip(after_ket(s, i + q + 1)));
                                            let inew = after_ket(s, i + q + 1);
                                            assert(tags(s, i).events == seq![ev] + tags(
                                                s,
                                                inew,
                                            ).events);
                                            assert(tags_reaches(s, inew, inew));
                                            assert(tags_reaches(s, i, inew));
                                        }
                                        let ghost i2 = after_ket(s, i + q + 1);
                                        let ghost news = seq![ev];
                                        (TagLineOut::More, Ghost(i2), Ghost(news))
                                    },
                                    ValueScan::Newline(nl) => {
                                        let value = self.copy_range(jrel + 1, nl);
                                        proof {
                                            assert(value@ =~= s.subrange(i + jrel + 1, i + nl));
                                        }
                                        let ghost ev = EventView::Tag(key@, value@);
                                        let tag_event = Event::Tag { key, value: RawTag(value) };
                                        proof {
                                            lemma_views_push(events@, tag_event);
                                            assert(tag_event@ == ev);
                                        }
                                        events.push(tag_event);
                                        self.consume(nl + 1);
                                        proof {
                                            assert(self@ =~= s.skip(i + nl + 1));
                                            assert(tags(s, i).events =~= seq![ev]);
                                            assert(tags(s, i).end == i + nl + 1);
                                        }
                                        let ghost i2 = i + nl + 1;
                                        let ghost news = seq![ev];
                                        (
                                            TagLineOut::Failed(ReadError::UnterminatedTag),
                                            Ghost(i2),
                                            Ghost(news),
                                        )
                                    },
                                    ValueScan::Nowhere => {
                                        self.consume(wrel);
                                        proof {
                                            assert(self@ =~= s.skip(w));
                                        }
                                        self.skip_line();
                                        proof {
                                            lemma_after_line_shift(s, w);
                                            lemma_after_line(s, w);
                                            assert(self@ =~= s.skip(after_line(s, w)));
                                            assert(tags(s, i).end == after_line(s, w));
                                            assert(tags(s, i).err == Some(
                                                ReadError::UnterminatedTag,
                                            ));
                                            assert(tags(s, i).events =~= Seq::<EventView>::empty());
                                            assert(views(events@) =~= views(events@) + tags(
                                                s,
                                                i,
                                            ).events);
                                        }
                                        let ghost i2 = after_line(s, w);
                                        let ghost none: Seq<EventView> = Seq::empty();
                                        (
                                            TagLineOut::Failed(ReadError::UnterminatedTag),
                                            Ghost(i2),
                                            Ghost(none),
                                        )
                                    },
                                }
                            }
                        },
                    }
                } else if b == 37 {
                    proof {
                        assert(s[i] == 37);
                    }
                    self.skip_line();
                    proof {
                        lemma_after_line_shift(s, i);
                        lemma_after_line(s, i);
                        assert(self@ =~= s.skip(after_line(s, i)));
                        let inew = after_line(s, i);
                        assert(tags(s, i).events =~= Seq::<EventView>::empty() + tags(
                            s,
                            inew,
                        ).events);
                        assert(views(events@) =~= views(events@) + Seq::<EventView>::empty());
                        assert(tags_reaches(s, inew, inew));
                        assert(tags_reaches(s, i, inew));
                    }
                    let ghost i2 = after_line(s, i);
                    let ghost none: Seq<EventView> = Seq::empty();
                    (TagLineOut::More, Ghost(i2), Ghost(none))
                } else {
                    proof {
                        assert(s[i] != 91 && s[i] != 37);
                        assert(tags(s, i).end == i);
                        assert(tags(s, i).events =~= Seq::<EventView>::empty());
                    }
                    let ghost none: Seq<EventView> = Seq::empty();
                    (TagLineOut::End, Ghost(i), Ghost(none))
                }
            },
        }
    }
}

impl BufferedReader {
    /// One brace comment token of movetext.
    #[verifier::rlimit(50)]
    fn step_comment(
        &mut self,
        events: &mut Vec<Event>,
        Ghost(s): Ghost<Seq<u8>>,
        Ghost(i): Ghost<int>,
        Ghost(d): Ghost<int>,
    ) -> (r: Option<ReadError>)
        requires
            old(self).wf(),
            0 <= i < s.len(),
            0 <= d,
            old(self)@ == s.skip(i),
            s[i] == 123,
        ensures
            final(self).wf(),
            ({
                let st = movetext_step(s, i, d);
                &&& final(self)@ == s.skip(st.next)
                &&& views(final(events)@) == views(old(events)@) + st.events
                &&& r == st.err
                &&& st.depth == d
                &&& !st.ended
            }),
    {
        let ghost cur = self@;
        self.ensure_bytes(MAX_COMMENT_LENGTH + 1);
        let al = self.avail_len();
        let wrel: usize = if al < MAX_COMMENT_LENGTH + 1 {
            al
        } else {
            MAX_COMMENT_LENGTH + 1
        };
        proof {
            self.lemma_prefix();
            assert(self.avail() <= s.len() - i);
        }
        let win = self.window(1, wrel);
        proof {
            assert(win@ =~= s.subrange(i + 1, i + wrel));
            lemma_find_byte_window(s, 125, i + 1, i + wrel);
            lemma_find_byte(s, 125, i + 1);
        }
        match find_first(125, win) {
            Some(p) => {
                let jrel = 1 + p;
                proof {
                    assert(find_byte(s, 125, i + 1) == i + jrel);
                }
                let value = self.copy_range(1, jrel);
                proof {
                    assert(value@ =~= s.subrange(i + 1, i + jrel));
                }
                let ev = Event::Comment(RawComment(value));
                proof {
                    lemma_views_push(events@, ev);
                }
                events.push(ev);
                self.consume(jrel + 1);
                proof {
                    assert(self@ =~= s.skip(i + jrel + 1));
                    assert(movetext_step(s, i, d).events =~= seq![
                        EventView::Comment(s.subrange(i + 1, i + jrel)),
                    ]);
                    assert(views(events@) =~= views(old(events)@) + movetext_step(s, i, d).events);
                }
                None
            },
            None => {
                proof {
                    assert(find_byte(s, 125, i + 1) >= i + wrel);
                }
                self.consume(wrel);
                proof {
                    assert(self@ =~= s.skip(i + wrel));
                }
                self.skip_until(125);
                proof {
                    lemma_find_byte_shift(s, 125, i + wrel);
                    lemma_find_byte_restart(s, 125, i + 1, i + wrel);
                    assert(self@ =~= s.skip(find_byte(s, 125, i + 1)));
                }
                match self.lookahead(0) {
                    Some(_) => {
                        self.consume(1);
                        proof {
                            assert(find_byte(s, 125, i + 1) < s.len());
                            assert(self@ =~= s.skip(find_byte(s, 125, i + 1) + 1));
                            assert(movetext_step(s, i, d).events =~= Seq::<EventView>::empty());
                            assert(views(events@) =~= views(old(events)@));
                        }
                    },
                    None => {
                        proof {
                            assert(find_byte(s, 125, i + 1) == s.len());
                            assert(movetext_step(s, i, d).events =~= Seq::<EventView>::empty());
                            assert(views(events@) =~= views(old(events)@));
                        }
                    },
                }
                Some(ReadError::UnterminatedComment)
            },
        }
    }
}

impl BufferedReader {
    /// A movetext token starting with `0`: a black win, zero-notation
    /// castling, or an unknown token.
    #[verifier::rlimit(50)]
    fn step_zero(
        &mut self,
        events: &mut Vec<Event>,
        Ghost(s): Ghost<Seq<u8>>,
        Ghost(i): Ghost<int>,
        Ghost(d): Ghost<int>,
    ) -> (r: Option<ReadError>)
        requires
            old(self).wf(),
            0 <= i < s.len(),
            0 <= d,
            old(self)@ == s.skip(i),
            s[i] == 48,
        ensures
            final(self).wf(),
            ({
                let st = movetext_step(s, i, d);
                &&& final(self)@ == s.skip(st.next)
                &&& views(final(events)@) == views(old(events)@) + st.events
                &&& r == st.err
                &&& st.depth == d
                &&& !st.ended
            }),
    {
        let dash = self.byte_at_is(1, 45);
        if dash && self.byte_at_is(2, 49) {
            proof {
                assert(has2(s, i + 1, 45, 49));
            }
            let ev = Event::Outcome(Outcome::BlackWins);
            proof {
                lemma_views_push(events@, ev);
            }
            events.push(ev);
            self.consume(3);
            proof {
                assert(self@ =~= s.skip(i + 3));
                assert(movetext_step(s, i, d).events =~= seq![
                    EventView::Outcome(Outcome::BlackWins),
                ]);
                assert(views(events@) =~= views(old(events)@) + movetext_step(s, i, d).events);
            }
            None
        } else if dash && self.byte_at_is(2, 48) {
            proof {
                assert(has2(s, i + 1, 45, 48));
                assert(!has2(s, i + 1, 45, 49));
            }
            let queen = self.byte_at_is(3, 45) && self.byte_at_is(4, 48);
            let prel: usize = if queen {
                5
            } else {
                3
            };
            proof {
                assert(queen == has2(s, i + 3, 45, 48));
            }
            let check = self.byte_at_is(prel, 43);
            let mate = self.byte_at_is(prel, 35);
            let suffix: Option<Suffix> = if check {
                Some(Suffix::Check)
            } else if mate {
                Some(Suffix::Checkmate)
            } else {
                None
            };
            let side = if queen {
                CastlingSide::QueenSide
            } else {
                CastlingSide::KingSide
            };
            let ev = Event::San(SanToken::Castle { side, suffix });
            proof {
                lemma_views_push(events@, ev);
            }
            events.push(ev);
            proof {
                // the castling token itself spans up to `prel`, which is
                // within the input because its last zero is
                assert(i + prel <= s.len());
            }
            self.consume(prel);
            proof {
                assert(self@ =~= s.skip(i + prel));
                assert(movetext_step(s, i, d).events =~= seq![
                    EventView::San(SanView::Castle { side, suffix }),
                ]);
                assert(views(events@) =~= views(old(events)@) + movetext_step(s, i, d).events);
            }
            None
        } else {
            proof {
                assert(!has2(s, i + 1, 45, 49));
                assert(!has2(s, i + 1, 45, 48));
            }
            let te = self.find_token_end(1);
            proof {
                lemma_token_end_shift(s, i + 1);
                let ghost cur = s.skip(i);
                lemma_token_end_shift(cur, 1);
                assert(cur.skip(1) =~= s.skip(i + 1));
                assert(i + te == token_end(s, i + 1));
                lemma_token_end(s, i + 1);
            }
            self.consume(te);
            proof {
                assert(self@ =~= s.skip(i + te));
                assert(movetext_step(s, i, d).events =~= Seq::<EventView>::empty());
                assert(views(events@) =~= views(old(events)@));
            }
            None
        }
    }

    /// A movetext token starting with `1`: a white win, a draw, or a move
    /// number.
    #[verifier::rlimit(50)]
    fn step_one(
        &mut self,
        events: &mut Vec<Event>,
        Ghost(s): Ghost<Seq<u8>>,
        Ghost(i): Ghost<int>,
        Ghost(d): Ghost<int>,
    ) -> (r: Option<ReadError>)
        requires
            old(self).wf(),
            0 <= i < s.len(),
            0 <= d,
            old(self)@ == s.skip(i),
            s[i] == 49,
        ensures
            final(self).wf(),
            ({
                let st = movetext_step(s, i, d);
                &&& final(self)@ == s.skip(st.next)
                &&& views(final(events)@) == views(old(events)@) + st.events
                &&& r == st.err
                &&& st.depth == d
                &&& !st.ended
            }),
    {
        let dash = self.byte_at_is(1, 45);
        if dash && self.byte_at_is(2, 48) {
            proof {
                assert(has2(s, i + 1, 45, 48));
            }
            let ev = Event::Outcome(Outcome::WhiteWins);
            proof {
                lemma_views_push(events@, ev);
            }
            events.push(ev);
            self.consume(3);
            proof {
                assert(self@ =~= s.skip(i + 3));
                assert(movetext_step(s, i, d).events =~= seq![
                    EventView::Outcome(Outcome::WhiteWins),
                ]);
                assert(views(events@) =~= views(old(events)@) + movetext_step(s, i, d).events);
            }
            None
        } else if self.byte_at_is(1, 47) && self.byte_at_is(2, 50) && self.byte_at_is(3, 45)
            && self.byte_at_is(4, 49) && self.byte_at_is(5, 47) && self.byte_at_is(6, 50) {
            proof {
                assert(has_draw_tail(s, i + 1));
                assert(!has2(s, i + 1, 45, 48));
            }
            let ev = Event::Outcome(Outcome::Draw);
            proof {
                lemma_views_push(events@, ev);
            }
            events.push(ev);
            self.consume(7);
            proof {
                assert(self@ =~= s.skip(i + 7));
                assert(movetext_step(s, i, d).events =~= seq![EventView::Outcome(Outcome::Draw)]);
                assert(views(events@) =~= views(old(events)@) + movetext_step(s, i, d).events);
            }
            None
        } else {
            proof {
                assert(!has2(s, i + 1, 45, 48));
                assert(!has_draw_tail(s, i + 1));
            }
            self.step_movenum(Ghost(s), Ghost(i));
            proof {
                assert(movetext_step(s, i, d).events =~= Seq::<EventView>::empty());
                assert(views(events@) =~= views(old(events)@));
            }
            None
        }
    }

    /// Consume a move number: its remaining digits, then its dots.  The
    /// leading digit at `i` is consumed too.
    fn step_movenum(&mut self, Ghost(s): Ghost<Seq<u8>>, Ghost(i): Ghost<int>)
        requires
            old(self).wf(),
            0 <= i < s.len(),
            old(self)@ == s.skip(i),
        ensures
            final(self).wf(),
            final(self)@ == s.skip(skip_dots(s, skip_digits(s, i + 1))),
    {
        self.consume(1);
        proof {
            assert(self@ =~= s.skip(i + 1));
        }
        self.skip_digit_run();
        proof {
            lemma_skip_digits_shift(s, i + 1);
            lemma_skip_digits(s, i + 1);
            assert(self@ =~= s.skip(skip_digits(s, i + 1)));
        }
        self.skip_dot_run();
        proof {
            let ghost m = skip_digits(s, i + 1);
            lemma_skip_dots_shift(s, m);
            lemma_skip_dots(s, m);
            assert(self@ =~= s.skip(skip_dots(s, m)));
        }
    }

    /// A `$n` numeric annotation glyph; a malformed one is dropped.
    #[verifier::rlimit(50)]
    fn step_nag(
        &mut self,
        events: &mut Vec<Event>,
        Ghost(s): Ghost<Seq<u8>>,
        Ghost(i): Ghost<int>,
        Ghost(d): Ghost<int>,
    ) -> (r: Option<ReadError>)
        requires
            old(self).wf(),
            0 <= i < s.len(),
            0 <= d,
            old(self)@ == s.skip(i),
            s[i] == 36,
        ensures
            final(self).wf(),
            ({
                let st = movetext_step(s, i, d);
                &&& final(self)@ == s.skip(st.next)
                &&& views(final(events)@) == views(old(events)@) + st.events
                &&& r == st.err
                &&& st.depth == d
                &&& !st.ended
            }),
    {
        let te = self.find_token_end(1);
        proof {
            lemma_token_end_shift(s, i + 1);
            let ghost cur = s.skip(i);
            lemma_token_end_shift(cur, 1);
            assert(cur.skip(1) =~= s.skip(i + 1));
            assert(i + te == token_end(s, i + 1));
            lemma_token_end(s, i + 1);
            self.lemma_prefix();
        }
        let digits = self.window(1, te);
        proof {
            assert(digits@ =~= s.subrange(i + 1, i + te));
        }
        match parse_u16(digits) {
            Some(v) => {
                let ev = Event::Nag(Nag(v));
                proof {
                    lemma_views_push(events@, ev);
                }
                events.push(ev);
                self.consume(te);
                proof {
                    assert(self@ =~= s.skip(i + te));
                    assert(movetext_step(s, i, d).events =~= seq![EventView::Nag(v as u16)]);
                    assert(views(events@) =~= views(old(events)@) + movetext_step(s, i, d).events);
                }
                None
            },
            None => {
                self.consume(te);
                proof {
                    assert(self@ =~= s.skip(i + te));
                    assert(movetext_step(s, i, d).events =~= Seq::<EventView>::empty());
                    assert(views(events@) =~= views(old(events)@));
                }
                None
            },
        }
    }

    /// A potential SAN token; one the SAN parser rejects is dropped.
    #[verifier::rlimit(50)]
    fn step_san(
        &mut self,
        events: &mut Vec<Event>,
        Ghost(s): Ghost<Seq<u8>>,
        Ghost(i): Ghost<int>,
        Ghost(d): Ghost<int>,
    ) -> (r: Option<ReadError>)
        requires
            old(self).wf(),
            0 <= i < s.len(),
            0 <= d,
            old(self)@ == s.skip(i),
            is_san_start(s[i]),
            s[i] != 48 && s[i] != 49,
            !(50 <= s[i] <= 57),
            s[i] != 123 && s[i] != 10 && s[i] != 59 && s[i] != 40 && s[i] != 41 && s[i] != 36
                && s[i] != 33 && s[i] != 63 && s[i] != 42,
        ensures
            final(self).wf(),
            ({
                let st = movetext_step(s, i, d);
                &&& final(self)@ == s.skip(st.next)
                &&& views(final(events)@) == views(old(events)@) + st.events
                &&& r == st.err
                &&& st.depth == d
                &&& !st.ended
            }),
    {
        let te = self.find_token_end(1);
        proof {
            lemma_token_end_shift(s, i + 1);
            let ghost cur = s.skip(i);
            lemma_token_end_shift(cur, 1);
            assert(cur.skip(1) =~= s.skip(i + 1));
            assert(i + te == token_end(s, i + 1));
            lemma_token_end(s, i + 1);
            self.lemma_prefix();
        }
        let tok = self.window(0, te);
        proof {
            assert(tok@ =~= s.subrange(i, i + te));
        }
        match parse_san(tok) {
            Some(sp) => {
                let raw = self.copy_range(0, te);
                proof {
                    assert(raw@ =~= s.subrange(i, i + te));
                }
                let ev = Event::San(SanToken::Parsed { raw, san: sp });
                proof {
                    lemma_views_push(events@, ev);
                }
                events.push(ev);
                self.consume(te);
                proof {
                    assert(self@ =~= s.skip(i + te));
                    assert(movetext_step(s, i, d).events =~= seq![
                        EventView::San(SanView::Parsed(s.subrange(i, i + te))),
                    ]);
                    assert(views(events@) =~= views(old(events)@) + movetext_step(s, i, d).events);
                }
                None
            },
            None => {
                self.consume(te);
                proof {
                    assert(self@ =~= s.skip(i + te));
                    assert(movetext_step(s, i, d).events =~= Seq::<EventView>::empty());
                    assert(views(events@) =~= views(old(events)@));
                }
                None
            },
        }
    }
}

/// What one movetext token meant for the section: more tokens follow, the
/// movetext ended at a game boundary, or a framing error was reported.
enum TokenOut {
    More,
    Ended,
    Failed(ReadError),
}

impl BufferedReader {
    /// Dispatch one movetext token at the front of the remaining input.
    #[verifier::rlimit(100)]
    fn movetext_token(
        &mut self,
        events: &mut Vec<Event>,
        depth: &mut usize,
        Ghost(s): Ghost<Seq<u8>>,
        Ghost(i): Ghost<int>,
    ) -> (r: TokenOut)
        requires
            old(self).wf(),
            0 <= i < s.len(),
            s.len() <= usize::MAX,
            *old(depth) <= i,
            old(self)@ == s.skip(i),
        ensures
            final(self).wf(),
            ({
                let st = movetext_step(s, i, *old(depth) as int);
                &&& final(self)@ == s.skip(st.next)
                &&& views(final(events)@) == views(old(events)@) + st.events
                &&& st.depth == *final(depth) as int
                &&& *final(depth) <= st.next
                &&& match r {
                    TokenOut::More => st.err is None && !st.ended,
                    TokenOut::Ended => st.err is None && st.ended,
                    TokenOut::Failed(e) => st.err == Some(e),
                }
            }),
    {
        let ghost d: int = *depth as int;
        let b = match self.lookahead(0) {
            Some(b) => b,
            None => {
                proof {
                    assert(false);
                }
                0
            },
        };
        proof {
            assert(b == s[i]);
            lemma_movetext_step(s, i, d);
        }
        if b == 123 {
            match self.step_comment(events, Ghost(s), Ghost(i), Ghost(d)) {
                Some(e) => TokenOut::Failed(e),
                None => TokenOut::More,
            }
        } else if b == 10 {
            self.consume(1);
            proof {
                assert(self@ =~= s.skip(i + 1));
            }
            match self.lookahead(0) {
                None => {
                    proof {
                        let st = movetext_step(s, i, d);
                        assert(st.next == i + 1 && !st.ended && st.err is None);
                        assert(views(events@) =~= views(old(events)@) + st.events);
                    }
                    TokenOut::More
                },
                Some(n2) => {
                    if n2 == 37 {
                        self.consume(1);
                        proof {
                            assert(self@ =~= s.skip(i + 2));
                        }
                        self.skip_line();
                        proof {
                            lemma_after_line_shift(s, i + 2);
                            lemma_after_line(s, i + 2);
                            assert(self@ =~= s.skip(after_line(s, i + 2)));
                            let st = movetext_step(s, i, d);
                            assert(st.next == after_line(s, i + 2) && !st.ended && st.err
                                is None);
                            assert(views(events@) =~= views(old(events)@) + st.events);
                        }
                        TokenOut::More
                    } else if n2 == 91 || n2 == 10 {
                        proof {
                            let st = movetext_step(s, i, d);
                            assert(st.ended && st.next == i + 1 && st.depth == d);
                            assert(views(events@) =~= views(old(events)@) + st.events);
                        }
                        TokenOut::Ended
                    } else if n2 == 13 {
                        self.consume(1);
                        proof {
                            assert(self@ =~= s.skip(i + 2));
                        }
                        match self.lookahead(0) {
                            Some(10) => {
                                proof {
                                    let st = movetext_step(s, i, d);
                                    assert(st.ended && st.next == i + 2 && st.depth == d);
                                    assert(views(events@) =~= views(old(events)@) + st.events);
                                }
                                TokenOut::Ended
                            },
                            _ => {
                                proof {
                                    let st = movetext_step(s, i, d);
                                    assert(st.next == i + 2 && !st.ended && st.err is None);
                                    assert(views(events@) =~= views(old(events)@) + st.events);
                                }
                                TokenOut::More
                            },
                        }
                    } else {
                        proof {
                            let st = movetext_step(s, i, d);
                            assert(st.next == i + 1 && !st.ended && st.err is None);
                            assert(views(events@) =~= views(old(events)@) + st.events);
                        }
                        TokenOut::More
                    }
                },
            }
        } else if b == 59 {
            self.consume(1);
            proof {
                assert(self@ =~= s.skip(i + 1));
            }
            self.skip_until(10);
            proof {
                lemma_find_byte_shift(s, 10, i + 1);
                lemma_find_byte(s, 10, i + 1);
                assert(self@ =~= s.skip(find_byte(s, 10, i + 1)));
                let st = movetext_step(s, i, d);
                assert(st.next == find_byte(s, 10, i + 1) && !st.ended && st.err is None);
                assert(views(events@) =~= views(old(events)@) + st.events);
            }
            TokenOut::More
        } else if b == 48 {
            match self.step_zero(events, Ghost(s), Ghost(i), Ghost(d)) {
                Some(e) => TokenOut::Failed(e),
                None => TokenOut::More,
            }
        } else if b == 49 {
            match self.step_one(events, Ghost(s), Ghost(i), Ghost(d)) {
                Some(e) => TokenOut::Failed(e),
                None => TokenOut::More,
            }
        } else if 50 <= b && b <= 57 {
            self.step_movenum(Ghost(s), Ghost(i));
            proof {
                lemma_skip_digits(s, i + 1);
                lemma_skip_dots(s, skip_digits(s, i + 1));
                let st = movetext_step(s, i, d);
                assert(st.next == skip_dots(s, skip_digits(s, i + 1)) && !st.ended && st.err
                    is None);
                assert(views(events@) =~= views(old(events)@) + st.events);
            }
            TokenOut::More
        } else if b == 40 {
            let ev = Event::BeginVariation;
            proof {
                lemma_views_push(events@, ev);
            }
            events.push(ev);
            self.consume(1);
            *depth = *depth + 1;
            proof {
                assert(self@ =~= s.skip(i + 1));
                let st = movetext_step(s, i, d);
                assert(st.next == i + 1 && st.depth == d + 1 && !st.ended && st.err is None);
                assert(st.events =~= seq![EventView::BeginVariation]);
                assert(views(events@) =~= views(old(events)@) + st.events);
            }
            TokenOut::More
        } else if b == 41 {
            if *depth > 0 {
                let ev = Event::EndVariation;
                proof {
                    lemma_views_push(events@, ev);
                }
                events.push(ev);
                self.consume(1);
                *depth = *depth - 1;
                proof {
                    assert(self@ =~= s.skip(i + 1));
                    let st = movetext_step(s, i, d);
                    assert(st.next == i + 1 && st.depth == d - 1 && !st.ended && st.err is None);
                    assert(st.events =~= seq![EventView::EndVariation]);
                    assert(views(events@) =~= views(old(events)@) + st.events);
                }
                TokenOut::More
            } else {
                self.consume(1);
                proof {
                    assert(self@ =~= s.skip(i + 1));
                    let st = movetext_step(s, i, d);
                    assert(st.next == i + 1 && st.depth == d && !st.ended && st.err is None);
                    assert(views(events@) =~= views(old(events)@) + st.events);
                }
                TokenOut::More
            }
        } else if b == 36 {
            match self.step_nag(events, Ghost(s), Ghost(i), Ghost(d)) {
                Some(e) => TokenOut::Failed(e),
                None => TokenOut::More,
            }
        } else if b == 33 || b == 63 {
            let second = self.lookahead(1);
            let two = match second {
                Some(33) => true,
                Some(63) => true,
                _ => false,
            };
            let value: u16 = if b == 33 {
                match second {
                    Some(33) => 3,
                    Some(63) => 5,
                    _ => 1,
                }
            } else {
                match second {
                    Some(33) => 6,
                    Some(63) => 4,
                    _ => 2,
                }
            };
            let span: usize = if two {
                2
            } else {
                1
            };
            let ev = Event::Nag(Nag(value));
            proof {
                lemma_views_push(events@, ev);
            }
            events.push(ev);
            self.consume(span);
            proof {
                assert(self@ =~= s.skip(i + span));
                let st = movetext_step(s, i, d);
                assert(st.next == i + span && st.depth == d && !st.ended && st.err is None);
                assert(st.events =~= seq![EventView::Nag(value)]);
                assert(views(events@) =~= views(old(events)@) + st.events);
            }
            TokenOut::More
        } else if b == 42 {
            let ev = Event::Outcome(Outcome::Unknown);
            proof {
                lemma_views_push(events@, ev);
            }
            events.push(ev);
            self.consume(1);
            proof {
                assert(self@ =~= s.skip(i + 1));
                let st = movetext_step(s, i, d);
                assert(st.next == i + 1 && st.depth == d && !st.ended && st.err is None);
                assert(st.events =~= seq![EventView::Outcome(Outcome::Unknown)]);
                assert(views(events@) =~= views(old(events)@) + st.events);
            }
            TokenOut::More
        } else if is_san_start_byte(b) {
            match self.step_san(events, Ghost(s), Ghost(i), Ghost(d)) {
                Some(e) => TokenOut::Failed(e),
                None => TokenOut::More,
            }
        } else {
            self.consume(1);
            proof {
                assert(self@ =~= s.skip(i + 1));
                let st = movetext_step(s, i, d);
                assert(st.next == i + 1 && st.depth == d && !st.ended && st.err is None);
                assert(views(events@) =~= views(old(events)@) + st.events);
            }
            TokenOut::More
        }
    }

    /// Read the movetext section, appending its events; returns the framing
    /// error, if one was reported.  Variations still open at the end of the
    /// game are closed with `EndVariation` events.
    #[verifier::rlimit(100)]
    fn read_movetext_events(&mut self, events: &mut Vec<Event>) -> (r: Option<ReadError>)
        requires
            old(self).wf(),
        ensures
            final(self).wf(),
            ({
                let o = movetext(old(self)@, 0, 0);
                &&& final(self)@ == old(self)@.skip(o.end)
                &&& views(final(events)@) == views(old(events)@) + o.events
                &&& r == o.err
            }),
    {
        let ghost s = self@;
        let ghost done0 = views(events@);
        let ghost mut i: int = 0;
        let ghost mut acc: Seq<EventView> = Seq::empty();
        let mut vdepth: usize = 0;
        proof {
            self.lemma_len_bound();
            assert(views(events@) =~= done0 + acc);
            assert(acc + movetext(s, 0, 0).events =~= movetext(s, 0, 0).events);
        }
        loop
            invariant_except_break
                0 <= i <= s.len(),
                vdepth <= i,
                self@ == s.skip(i),
                movetext(s, 0, 0).end == movetext(s, i, vdepth as int).end,
                movetext(s, 0, 0).err == movetext(s, i, vdepth as int).err,
                movetext(s, 0, 0).events == acc + movetext(s, i, vdepth as int).events,
                views(events@) == done0 + acc,
            invariant
                self.wf(),
                s == old(self)@,
                s.len() <= usize::MAX,
                done0 == views(old(events)@),
            ensures
                movetext(s, 0, 0).err is None,
                self@ == s.skip(movetext(s, 0, 0).end),
                movetext(s, 0, 0).events == acc + closers(vdepth as int),
                views(events@) == done0 + acc,
            decreases s.len() - i,
        {
            let ghost d: int = vdepth as int;
            if self.lookahead(0).is_none() {
                proof {
                    assert(i == s.len());
                    assert(movetext(s, i, d).events == closers(d));
                }
                break;
            }
            let tk = self.movetext_token(events, &mut vdepth, Ghost(s), Ghost(i));
            proof {
                lemma_movetext_step(s, i, d);
            }
            match tk {
                TokenOut::More => {
                    proof {
                        let st = movetext_step(s, i, d);
                        assert(movetext(s, 0, 0).events =~= (acc + st.events) + movetext(
                            s,
                            st.next,
                            st.depth,
                        ).events);
                        acc = acc + st.events;
                        i = st.next;
                        assert(views(events@) =~= done0 + acc);
                    }
                },
                TokenOut::Ended => {
                    proof {
                        let st = movetext_step(s, i, d);
                        assert(movetext(s, i, d).events == st.events + closers(st.depth));
                        assert(movetext(s, i, d).end == st.next);
                        assert(movetext(s, 0, 0).events =~= (acc + st.events) + closers(
                            st.depth,
                        ));
                        acc = acc + st.events;
                        i = st.next;
                        assert(views(events@) =~= done0 + acc);
                    }
                    break;
                },
                TokenOut::Failed(e) => {
                    proof {
                        let st = movetext_step(s, i, d);
                        assert(movetext(s, i, d).events == st.events);
                        assert(movetext(s, i, d).end == st.next);
                        assert(movetext(s, 0, 0).events =~= acc + st.events);
                        assert(views(events@) =~= done0 + movetext(s, 0, 0).events);
                    }
                    return Some(e);
                },
            }
        }
        while vdepth > 0
            invariant
                self.wf(),
                self@ == old(self)@.skip(movetext(old(self)@, 0, 0).end),
                movetext(old(self)@, 0, 0).err is None,
                movetext(old(self)@, 0, 0).events == acc + closers(vdepth as int),
                views(events@) == views(old(events)@) + acc,
            decreases vdepth,
        {
            let ev = Event::EndVariation;
            proof {
                lemma_views_push(events@, ev);
                lemma_closers_front(vdepth as int);
            }
            events.push(ev);
            proof {
                assert((acc + closers(vdepth as int)) =~= (acc.push(EventView::EndVariation)
                    + closers(vdepth - 1)));
                acc = acc.push(EventView::EndVariation);
            }
            vdepth = vdepth - 1;
        }
        proof {
            assert(movetext(old(self)@, 0, 0).events =~= acc);
        }
        None
    }
}

/// The events of one game, pulled from the front of the stream.
pub struct RawGame {
    /// Whether a game was found at all; `false` exactly when nothing but
    /// whitespace remained.
    pub present: bool,
    /// The game's events, in source order.
    pub events: Vec<Event>,
    /// The framing error that cut the game short, if any.
    pub error: Option<ReadError>,
}

impl BufferedReader {
    /// Read one game's events.  Exactly the events of [`game`] on the
    /// remaining input are produced, and exactly the game's bytes are
    /// consumed.
    #[verifier::rlimit(100)]
    pub fn read_game_events(&mut self) -> (r: RawGame)
        requires
            old(self).wf(),
        ensures
            final(self).wf(),
            ({
                let g = game(old(self)@);
                &&& final(self)@ == old(self)@.skip(g.end)
                &&& r.present == g.present
                &&& views(r.events@) == g.events
                &&& r.error == g.err
            }),
    {
        let ghost s = self@;
        self.skip_bom();
        proof {
            assert(self@ =~= s.skip(after_bom(s)));
        }
        self.skip_whitespace();
        let ghost i0 = after_ws(s, after_bom(s));
        proof {
            lemma_after_ws_shift(s, after_bom(s));
            lemma_after_ws(s, after_bom(s));
            assert(self@ =~= s.skip(i0));
        }
        let mut events: Vec<Event> = Vec::new();
        match self.lookahead(0) {
            None => {
                proof {
                    assert(i0 == s.len());
                    assert(views(events@) =~= Seq::<EventView>::empty());
                    let g = game(s);
                    assert(!g.present && g.err is None && g.end == i0);
                    assert(views(events@) =~= g.events);
                }
                RawGame { present: false, events, error: None }
            },
            Some(_) => {
                proof {
                    assert(i0 < s.len());
                }
                let ghost su = s.skip(i0);
                proof {
                    lemma_views_push(events@, Event::BeginTags);
                }
                events.push(Event::BeginTags);
                proof {
                    assert(views(events@) =~= seq![EventView::BeginTags]);
                }
                let terr = self.read_tags_events(&mut events);
                let ghost t = tags(su, 0);
                proof {
                    lemma_tags(su, 0);
                    assert(self@ =~= s.skip(i0 + t.end));
                }
                match terr {
                    Some(e) => {
                        proof {
                            assert(views(events@) =~= seq![EventView::BeginTags] + t.events);
                            let g = game(s);
                            assert(g.present && g.err == Some(e));
                            assert(g.end == i0 + t.end);
                            assert(g.events == seq![EventView::BeginTags] + t.events);
                            assert(self@ == s.skip(g.end));
                        }
                        RawGame { present: true, events, error: Some(e) }
                    },
                    None => {
                        proof {
                            lemma_views_push(events@, Event::BeginMovetext);
                        }
                        events.push(Event::BeginMovetext);
                        let ghost sm = su.skip(t.end);
                        proof {
                            assert(self@ == sm);
                            assert(views(events@) =~= (seq![EventView::BeginTags] + t.events)
                                .push(EventView::BeginMovetext));
                        }
                        let merr = self.read_movetext_events(&mut events);
                        let ghost m = movetext(sm, 0, 0);
                        proof {
                            lemma_movetext(sm, 0, 0);
                            assert(self@ =~= s.skip(i0 + t.end + m.end));
                            assert(views(events@) =~= seq![EventView::BeginTags] + t.events
                                + seq![EventView::BeginMovetext] + m.events);
                        }
                        match merr {
                            Some(e) => {
                                proof {
                                    let g = game(s);
                                    assert(g.present && g.err == Some(e));
                                    assert(g.end == i0 + t.end + m.end);
                                    assert(g.events == seq![EventView::BeginTags] + t.events
                                        + seq![EventView::BeginMovetext] + m.events);
                                    assert(self@ == s.skip(g.end));
                                }
                                RawGame { present: true, events, error: Some(e) }
                            },
                            None => {
                                proof {
                                    lemma_views_push(events@, Event::EndGame);
                                }
                                events.push(Event::EndGame);
                                self.skip_whitespace();
                                proof {
                                    lemma_after_ws_shift(sm, m.end);
                                    lemma_after_ws(sm, m.end);
                                    assert(self@ =~= s.skip(i0 + t.end + after_ws(sm, m.end)));
                                    assert(views(events@) =~= seq![EventView::BeginTags]
                                        + t.events + seq![EventView::BeginMovetext] + m.events
                                        + seq![EventView::EndGame]);
                                    let g = game(s);
                                    assert(g.present && g.err is None);
                                    assert(g.end == i0 + t.end + after_ws(sm, m.end));
                                    assert(g.events == seq![EventView::BeginTags] + t.events
                                        + seq![EventView::BeginMovetext] + m.events + seq![
                                        EventView::EndGame,
                                    ]);
                                    assert(self@ == s.skip(g.end));
                                }
                                RawGame { present: true, events, error: None }
                            },
                        }
                    },
                }
            },
        }
    }
}

/// Whether the skip state suppresses a movetext event, and the number of
/// suppressed variation levels afterwards.  `skip_all` suppresses the whole
/// movetext; `depth` counts the variations being suppressed after the
/// visitor asked to skip one, where the matching closing event is still
/// delivered.  A delivered `BeginVariation` leaves the depth at zero here;
/// the visitor's answer may then raise it to one.
pub open spec fn skip_verdict(skip_all: bool, depth: int, e: EventView) -> (bool, int) {
    if skip_all {
        (true, depth)
    } else if e is BeginVariation {
        if depth > 0 {
            (true, depth + 1)
        } else {
            (false, 0)
        }
    } else if e is EndVariation {
        if depth > 1 {
            (true, depth - 1)
        } else {
            (false, 0)
        }
    } else {
        (depth > 0, depth)
    }
}

/// Deliver one movetext event to the visitor under the skip state, and
/// return the state afterwards, or the visitor's error.  The state moves
/// exactly as `skip_verdict` says, except that the visitor's answer to a
/// delivered `BeginVariation` may start a suppression.
fn deliver_movetext_event<V: Visitor>(
    ev: &Event,
    visitor: &mut V,
    skip_all: bool,
    skipping: usize,
) -> (r: Result<usize, V::Error>)
    requires
        ev@ is BeginVariation ==> skipping < usize::MAX,
    ensures
        ({
            let (sup, nd) = skip_verdict(skip_all, skipping as int, ev@);
            match r {
                Ok(x) => (x as int == nd || (!sup && ev@ is BeginVariation && x == 1)) && x
                    <= skipping + 1,
                Err(_) => true,
            }
        }),
{
    if skip_all {
        return Ok(skipping);
    }
    match ev {
        Event::BeginVariation => {
            if skipping > 0 {
                Ok(skipping + 1)
            } else {
                match visitor.begin_variation() {
                    Ok(sk) => Ok(
                        if sk.0 {
                            1
                        } else {
                            0
                        },
                    ),
                    Err(e) => Err(e),
                }
            }
        },
        Event::EndVariation => {
            if skipping > 1 {
                Ok(skipping - 1)
            } else {
                match visitor.end_variation() {
                    Ok(_) => Ok(0),
                    Err(e) => Err(e),
                }
            }
        },
        Event::San(st) => {
            if skipping > 0 {
                Ok(skipping)
            } else {
                match visitor.san(st) {
                    Ok(_) => Ok(skipping),
                    Err(e) => Err(e),
                }
            }
        },
        Event::Nag(n) => {
            if skipping > 0 {
                Ok(skipping)
            } else {
                match visitor.nag(*n) {
                    Ok(_) => Ok(skipping),
                    Err(e) => Err(e),
                }
            }
        },
        Event::Comment(c) => {
            if skipping > 0 {
                Ok(skipping)
            } else {
                match visitor.comment(c) {
                    Ok(_) => Ok(skipping),
                    Err(e) => Err(e),
                }
            }
        },
        Event::Outcome(o) => {
            if skipping > 0 {
                Ok(skipping)
            } else {
                match visitor.outcome(*o) {
                    Ok(_) => Ok(skipping),
                    Err(e) => Err(e),
                }
            }
        },
        _ => Ok(skipping),
    }
}

/// Deliver a game's events to a visitor, honouring its skip requests: after
/// `begin_movetext` returns `Skip(true)` no movetext event is delivered, and
/// after `begin_variation` returns `Skip(true)` the variation's contents are
/// suppressed but its matching `end_variation` is still delivered.  Each
/// movetext event goes through [`skip_verdict`].  The first visitor error
/// stops delivery.
fn deliver<V: Visitor>(events: &Vec<Event>, visitor: &mut V) -> (r: Result<
    Option<V::Output>,
    V::Error,
>)
    ensures
        match r {
            Ok(out) => out is Some <==> exists|k: int|
                0 <= k < events@.len() && #[trigger] events@[k]@ is EndGame,
            Err(_) => true,
        },
{
    let mut out: Option<V::Output> = None;
    let mut skip_all = false;
    let mut skipping: usize = 0;
    let n = events.len();
    let mut idx: usize = 0;
    while idx < n
        invariant
            n == events@.len(),
            0 <= idx <= n,
            skipping <= idx,
            out is Some <==> exists|k: int| 0 <= k < idx && #[trigger] events@[k]@ is EndGame,
        decreases n - idx,
    {
        let ev = &events[idx];
        proof {
            assert(events@[idx as int]@ is EndGame ==> ev@ is EndGame);
        }
        match ev {
            Event::BeginTags => {
                match visitor.begin_tags() {
                    Ok(_) => {},
                    Err(e) => {
                        return Err(e);
                    },
                }
            },
            Event::Tag { key, value } => {
                match visitor.tag(key.as_slice(), value) {
                    Ok(_) => {},
                    Err(e) => {
                        return Err(e);
                    },
                }
            },
            Event::BeginMovetext => {
                match visitor.begin_movetext() {
                    Ok(sk) => {
                        if sk.0 {
                            skip_all = true;
                        }
                    },
                    Err(e) => {
                        return Err(e);
                    },
                }
            },
            Event::EndGame => {
                out = Some(visitor.end_game());
            },
            _ => {
                match deliver_movetext_event(ev, visitor, skip_all, skipping) {
                    Ok(nd) => {
                        skipping = nd;
                    },
                    Err(e) => {
                        return Err(e);
                    },
                }
            },
        }
        idx = idx + 1;
    }
    Ok(out)
}

/// A SAN start byte check, mirroring the model's class.
fn is_san_start_byte(b: u8) -> (r: bool)
    ensures
        r == is_san_start(b),
{
    (97 <= b && b <= 104) || b == 78 || b == 66 || b == 82 || b == 81 || b == 75 || b == 64
        || b == 45 || b == 79
}


/// How a delivering phase of `read_game` ended: every event handed over,
/// a framing error reported, or the visitor's rejection at the position the
/// reader then stands at.
enum PhaseOut<VE> {
    Done,
    Framing(ReadError),
    Rejected(VE, Ghost<int>),
}

impl BufferedReader {
    /// Read the tag section of `su = old(self)@`, delivering each tag to
    /// the visitor as its line is read.
    #[verifier::rlimit(100)]
    fn tags_deliver<V: Visitor>(
        &mut self,
        events: &mut Vec<Event>,
        delivered: &mut usize,
        visitor: &mut V,
    ) -> (r: PhaseOut<V::Error>)
        requires
            old(self).wf(),
            *old(delivered) == old(events)@.len(),
        ensures
            final(self).wf(),
            *final(delivered) == final(events)@.len(),
            ({
                let su = old(self)@;
                let t = tags(su, 0);
                match r {
                    PhaseOut::Done => {
                        &&& t.err is None
                        &&& final(self)@ == su.skip(t.end)
                        &&& tags_reaches(su, 0, t.end)
                    },
                    PhaseOut::Framing(e) => {
                        &&& t.err == Some(e)
                        &&& final(self)@ == su.skip(t.end)
                    },
                    PhaseOut::Rejected(_, gj) => {
                        &&& 0 <= gj@ <= su.len()
                        &&& final(self)@ == su.skip(gj@)
                        &&& (tags_reaches(su, 0, gj@) || (t.err is Some && gj@ == t.end))
                    },
                }
            }),
    {
        let ghost su = self@;
        let ghost mut i: int = 0;
        let mut terr: Option<ReadError> = None;
        loop
            invariant_except_break
                0 <= i <= su.len(),
                self@ == su.skip(i),
                tags(su, 0).end == tags(su, i).end,
                tags(su, 0).err == tags(su, i).err,
                tags_reaches(su, 0, i),
                *delivered == events@.len(),
                terr is None,
            invariant
                self.wf(),
                su == old(self)@,
            ensures
                self.wf(),
                *delivered == events@.len(),
                self@ == su.skip(tags(su, 0).end),
                match terr {
                    None => tags(su, 0).err is None && tags_reaches(su, 0, tags(su, 0).end),
                    Some(e) => tags(su, 0).err == Some(e),
                },
            decreases su.len() - i,
        {
            let ghost iprev = i;
            let lr = self.tag_line(events, Ghost(su), Ghost(i));
            match lr.0 {
                TagLineOut::More => {
                    proof {
                        lemma_tags_reaches_trans(su, 0, iprev, lr.1@);
                        i = lr.1@;
                        lemma_views_len(events@);
                    }
                    if *delivered < events.len() {
                        let ev = &events[*delivered];
                        *delivered = *delivered + 1;
                        match ev {
                            Event::Tag { key, value } => {
                                match visitor.tag(key.as_slice(), value) {
                                    Ok(_) => {},
                                    Err(e) => {
                                        let ghost j = i;
                                        return PhaseOut::Rejected(e, Ghost(j));
                                    },
                                }
                            },
                            _ => {},
                        }
                    }
                },
                TagLineOut::End => {
                    proof {
                        assert(tags(su, 0).end == i);
                    }
                    break;
                },
                TagLineOut::Failed(e) => {
                    terr = Some(e);
                    proof {
                        lemma_tags(su, 0);
                        lemma_views_len(events@);
                    }
                    if *delivered < events.len() {
                        let ev = &events[*delivered];
                        *delivered = *delivered + 1;
                        match ev {
                            Event::Tag { key, value } => {
                                match visitor.tag(key.as_slice(), value) {
                                    Ok(_) => {},
                                    Err(ve) => {
                                        let ghost j = tags(su, 0).end;
                                        proof {
                                            assert(self@ == su.skip(tags(su, i).end));
                                        }
                                        return PhaseOut::Rejected(ve, Ghost(j));
                                    },
                                }
                            },
                            _ => {},
                        }
                    }
                    break;
                },
            }
        }
        match terr {
            Some(e) => PhaseOut::Framing(e),
            None => PhaseOut::Done,
        }
    }

    /// Read the movetext section of `sm = old(self)@`, delivering each
    /// event to the visitor as its token is read, honouring the skip state,
    /// and closing the variations left open at the game's end.
    #[verifier::rlimit(100)]
    fn movetext_deliver<V: Visitor>(
        &mut self,
        events: &mut Vec<Event>,
        delivered: &mut usize,
        visitor: &mut V,
        skip_all: bool,
    ) -> (r: PhaseOut<V::Error>)
        requires
            old(self).wf(),
            *old(delivered) == old(events)@.len(),
        ensures
            final(self).wf(),
            ({
                let sm = old(self)@;
                let m = movetext(sm, 0, 0);
                match r {
                    PhaseOut::Done => {
                        &&& m.err is None
                        &&& final(self)@ == sm.skip(m.end)
                    },
                    PhaseOut::Framing(e) => {
                        &&& m.err == Some(e)
                        &&& final(self)@ == sm.skip(m.end)
                    },
                    PhaseOut::Rejected(_, gj) => {
                        &&& 0 <= gj@ <= sm.len()
                        &&& final(self)@ == sm.skip(gj@)
                        &&& ((exists|e: int| #[trigger] movetext_reaches(sm, 0, 0, gj@, e)) || gj@
                            == m.end)
                    },
                }
            }),
    {
        let ghost sm = self@;
        let mut vdepth: usize = 0;
        let mut skipping: usize = 0;
        let ghost mut mi: int = 0;
        let mut merr: Option<ReadError> = None;
        proof {
            self.lemma_len_bound();
        }
        loop
            invariant_except_break
                0 <= mi <= sm.len(),
                vdepth <= mi,
                skipping <= mi,
                self@ == sm.skip(mi),
                movetext(sm, 0, 0).end == movetext(sm, mi, vdepth as int).end,
                movetext(sm, 0, 0).err == movetext(sm, mi, vdepth as int).err,
                movetext_reaches(sm, 0, 0, mi, vdepth as int),
                *delivered == events@.len(),
                merr is None,
            invariant
                self.wf(),
                sm == old(self)@,
                sm.len() <= usize::MAX,
            ensures
                self.wf(),
                *delivered == events@.len(),
                self@ == sm.skip(movetext(sm, 0, 0).end),
                skipping <= sm.len(),
                match merr {
                    None => movetext(sm, 0, 0).err is None,
                    Some(e) => movetext(sm, 0, 0).err == Some(e),
                },
            decreases sm.len() - mi,
        {
            let ghost dprev = vdepth as int;
            let ghost iprev = mi;
            if self.lookahead(0).is_none() {
                proof {
                    assert(mi == sm.len());
                }
                break;
            }
            proof {
                assert(mi < sm.len());
            }
            let tk = self.movetext_token(events, &mut vdepth, Ghost(sm), Ghost(mi));
            proof {
                lemma_movetext_step(sm, iprev, dprev);
                lemma_views_len(events@);
            }
            match tk {
                TokenOut::More => {
                    proof {
                        let st = movetext_step(sm, iprev, dprev);
                        lemma_movetext_reaches_step(sm, 0, 0, iprev, dprev);
                        mi = st.next;
                    }
                    if *delivered < events.len() {
                        let ev = &events[*delivered];
                        *delivered = *delivered + 1;
                        proof {
                            assert(skipping < usize::MAX);
                        }
                        match deliver_movetext_event(ev, visitor, skip_all, skipping) {
                            Ok(nd) => {
                                skipping = nd;
                            },
                            Err(e) => {
                                let ghost j = mi;
                                proof {
                                    assert(movetext_reaches(sm, 0, 0, j, vdepth as int));
                                }
                                return PhaseOut::Rejected(e, Ghost(j));
                            },
                        }
                    }
                },
                TokenOut::Ended => {
                    proof {
                        let st = movetext_step(sm, iprev, dprev);
                        assert(movetext(sm, iprev, dprev).end == st.next);
                        assert(movetext(sm, iprev, dprev).err is None);
                        assert(st.events =~= Seq::<EventView>::empty());
                        mi = st.next;
                    }
                    break;
                },
                TokenOut::Failed(e) => {
                    merr = Some(e);
                    proof {
                        let st = movetext_step(sm, iprev, dprev);
                        assert(movetext(sm, iprev, dprev).end == st.next);
                        assert(movetext(sm, iprev, dprev).err == Some(e));
                        assert(st.events =~= Seq::<EventView>::empty());
                        mi = st.next;
                    }
                    break;
                },
            }
        }
        match merr {
            Some(e) => {
                return PhaseOut::Framing(e);
            },
            None => {},
        }
        // close the variations still open, delivering their end events
        while vdepth > 0
            invariant
                self.wf(),
                sm == old(self)@,
                movetext(sm, 0, 0).err is None,
                self@ == sm.skip(movetext(sm, 0, 0).end),
            decreases vdepth,
        {
            let ev = Event::EndVariation;
            match deliver_movetext_event(&ev, visitor, skip_all, skipping) {
                Ok(nd) => {
                    skipping = nd;
                },
                Err(e) => {
                    let ghost j = movetext(sm, 0, 0).end;
                    proof {
                        lemma_movetext(sm, 0, 0);
                    }
                    return PhaseOut::Rejected(e, Ghost(j));
                },
            }
            vdepth = vdepth - 1;
        }
        PhaseOut::Done
    }

    /// Read a single game, if any, delivering each event to the visitor as
    /// it is parsed, and return the result the visitor produced.  Returns
    /// `Ok(None)` when nothing but whitespace remains, and `Err(_)` on a
    /// framing error, with the whole game consumed.  When the visitor
    /// rejects the game (`Ok(Some(Err(_)))`), parsing stops: the reader
    /// stands at one of the positions the parse passes through, and the
    /// rest of the game is left unconsumed.
    #[verifier::rlimit(100)]
    pub fn read_game<V: Visitor>(&mut self, visitor: &mut V) -> (r: Result<
        Option<Result<V::Output, V::Error>>,
        ReadError,
    >)
        requires
            old(self).wf(),
        ensures
            final(self).wf(),
            ({
                let g = game(old(self)@);
                match r {
                    Ok(None) => !g.present && final(self)@ == old(self)@.skip(g.end),
                    Ok(Some(Ok(_))) => g.present && g.err is None && final(self)@ == old(
                        self,
                    )@.skip(g.end),
                    Ok(Some(Err(_))) => g.present && exists|j: int|
                        #[trigger] game_reaches(old(self)@, j) && final(self)@ == old(self)@.skip(
                            j,
                        ),
                    Err(e) => g.err == Some(e) && final(self)@ == old(self)@.skip(g.end),
                }
            }),
    {
        let ghost s = self@;
        self.skip_bom();
        proof {
            assert(self@ =~= s.skip(after_bom(s)));
        }
        self.skip_whitespace();
        let ghost i0 = after_ws(s, after_bom(s));
        proof {
            lemma_after_ws_shift(s, after_bom(s));
            lemma_after_ws(s, after_bom(s));
            assert(self@ =~= s.skip(i0));
        }
        if self.lookahead(0).is_none() {
            proof {
                assert(i0 == s.len());
            }
            return Ok(None);
        }
        proof {
            assert(i0 < s.len());
        }
        let ghost su = s.skip(i0);
        match visitor.begin_tags() {
            Ok(_) => {},
            Err(e) => {
                proof {
                    assert(tags_reaches(su, 0, 0));
                    assert(game_reaches(s, i0));
                }
                return Ok(Some(Err(e)));
            },
        }
        let mut events: Vec<Event> = Vec::new();
        let mut delivered: usize = 0;
        let ghost t = tags(su, 0);
        proof {
            lemma_tags(su, 0);
        }
        match self.tags_deliver(&mut events, &mut delivered, visitor) {
            PhaseOut::Rejected(ve, gj) => {
                proof {
                    assert(self@ =~= s.skip(i0 + gj@));
                    if tags_reaches(su, 0, gj@) {
                        assert(game_reaches(s, i0 + gj@));
                    } else {
                        assert(game(s).err is Some && game(s).end == i0 + t.end);
                        assert(game_reaches(s, i0 + gj@));
                    }
                }
                return Ok(Some(Err(ve)));
            },
            PhaseOut::Framing(e) => {
                proof {
                    assert(game(s).err == Some(e));
                    assert(game(s).end == i0 + t.end);
                    assert(self@ =~= s.skip(game(s).end));
                }
                return Err(e);
            },
            PhaseOut::Done => {},
        }
        let skip_all: bool;
        match visitor.begin_movetext() {
            Ok(sk) => {
                skip_all = sk.0;
            },
            Err(e) => {
                proof {
                    assert(self@ =~= s.skip(i0 + t.end));
                    assert(game_reaches(s, i0 + t.end));
                }
                return Ok(Some(Err(e)));
            },
        }
        let ghost sm = su.skip(t.end);
        let ghost m = movetext(sm, 0, 0);
        proof {
            lemma_movetext(sm, 0, 0);
            assert(self@ == sm);
        }
        match self.movetext_deliver(&mut events, &mut delivered, visitor, skip_all) {
            PhaseOut::Rejected(ve, gj) => {
                proof {
                    assert(self@ =~= s.skip(i0 + t.end + gj@));
                    if exists|e: int| #[trigger] movetext_reaches(sm, 0, 0, gj@, e) {
                        let e0 = choose|e: int| movetext_reaches(sm, 0, 0, gj@, e);
                        assert(movetext_reaches(
                            su.skip(tags(su, 0).end),
                            0,
                            0,
                            (i0 + t.end + gj@) - i0 - tags(su, 0).end,
                            e0,
                        ));
                        assert(game_reaches(s, i0 + t.end + gj@));
                    } else {
                        assert(gj@ == m.end);
                        if m.err is Some {
                            assert(game(s).err is Some && game(s).end == i0 + t.end + m.end);
                        }
                        assert(game_reaches(s, i0 + t.end + gj@));
                    }
                }
                return Ok(Some(Err(ve)));
            },
            PhaseOut::Framing(e) => {
                proof {
                    assert(game(s).err == Some(e));
                    assert(game(s).end == i0 + t.end + m.end);
                    assert(self@ =~= s.skip(game(s).end));
                }
                return Err(e);
            },
            PhaseOut::Done => {},
        }
        self.skip_whitespace();
        proof {
            lemma_after_ws_shift(sm, m.end);
            lemma_after_ws(sm, m.end);
            assert(self@ =~= s.skip(i0 + t.end + after_ws(sm, m.end)));
            assert(game(s).present && game(s).err is None);
            assert(game(s).end == i0 + t.end + after_ws(sm, m.end));
        }
        Ok(Some(Ok(visitor.end_game())))
    }

    /// Skip a single game; returns whether there was one.  Exactly the
    /// game's bytes are consumed.
    pub fn skip_game(&mut self) -> (r: Result<bool, ReadError>)
        requires
            old(self).wf(),
        ensures
            final(self).wf(),
            ({
                let g = game(old(self)@);
                &&& final(self)@ == old(self)@.skip(g.end)
                &&& match r {
                    Ok(found) => found == g.present && g.err is None,
                    Err(e) => g.err == Some(e),
                }
            }),
    {
        let g = self.read_game_events();
        if !g.present {
            Ok(false)
        } else {
            match g.error {
                Some(e) => Err(e),
                None => Ok(true),
            }
        }
    }

    /// Read all remaining games, delivering each finished game's events to
    /// the visitor.  A visitor error cancels that one game's remaining
    /// events and nothing else: the loop always advances game by game, so
    /// it stops exactly at the stream's first framing error, or, without
    /// one, consumes the whole input.
    pub fn read_all<V: Visitor>(&mut self, visitor: &mut V) -> (r: Result<(), ReadError>)
        requires
            old(self).wf(),
        ensures
            final(self).wf(),
            final(self)@ == old(self)@.skip(stream_end(old(self)@)),
            match r {
                Ok(()) => stream_err(old(self)@) is None && final(self)@.len() == 0,
                Err(e) => stream_err(old(self)@) == Some(e),
            },
    {
        let ghost s = self@;
        let ghost mut c: int = 0;
        proof {
            assert(s.skip(0) =~= s);
        }
        loop
            invariant_except_break
                0 <= c <= s.len(),
                self@ == s.skip(c),
                stream_end(s) == c + stream_end(self@),
                stream_err(s) == stream_err(self@),
            invariant
                self.wf(),
                s == old(self)@,
            ensures
                self.wf(),
                stream_err(s) is None,
                self@ == s.skip(stream_end(s)),
                self@.len() == 0,
            decreases self@.len(),
        {
            let ghost cur = self@;
            let g = self.read_game_events();
            proof {
                lemma_game(cur);
                lemma_after_ws(cur, after_bom(cur));
            }
            if !g.present {
                proof {
                    lemma_stream_end(cur);
                    assert(stream_end(cur) == cur.len());
                    assert(stream_err(cur) is None);
                    assert(self@ =~= s.skip(stream_end(s)));
                }
                break;
            }
            let dres = deliver(&g.events, visitor);
            proof {
                assert(stream_end(cur) == game(cur).end + stream_end(
                    cur.skip(game(cur).end),
                ) || game(cur).err is Some);
            }
            match g.error {
                Some(e) => {
                    proof {
                        assert(stream_err(cur) == Some(e));
                        assert(stream_end(cur) == game(cur).end);
                        assert(self@ =~= s.skip(stream_end(s)));
                    }
                    return Err(e);
                },
                None => {
                    proof {
                        assert(self@ =~= s.skip(c + game(cur).end));
                        c = c + game(cur).end;
                    }
                },
            }
        }
        Ok(())
    }

    /// Whether another game is waiting, without parsing it.  Skips the
    /// byte-order mark and whitespace, so a following `read_game` starts at
    /// the game directly.
    pub fn has_more(&mut self) -> (r: bool)
        requires
            old(self).wf(),
        ensures
            final(self).wf(),
            final(self)@ == old(self)@.skip(after_ws(old(self)@, after_bom(old(self)@))),
            r == game(old(self)@).present,
    {
        let ghost s = self@;
        self.skip_bom();
        proof {
            assert(self@ =~= s.skip(after_bom(s)));
        }
        self.skip_whitespace();
        proof {
            lemma_after_ws_shift(s, after_bom(s));
            lemma_after_ws(s, after_bom(s));
            assert(self@ =~= s.skip(after_ws(s, after_bom(s))));
        }
        match self.lookahead(0) {
            Some(_) => true,
            None => false,
        }
    }

    /// Turn the reader into an iterator-like cursor that reads one game per
    /// `next` call with the given visitor.
    pub fn into_iter<V: Visitor>(self, visitor: V) -> (r: IntoIter<V>)
        requires
            self.wf(),
        ensures
            r.wf(),
            r.remaining() == self@,
    {
        IntoIter { reader: self, visitor }
    }
}


/// A cursor over the games of a stream, reading one per `next` call.
pub struct IntoIter<V> {
    reader: BufferedReader,
    visitor: V,
}

impl<V: Visitor> IntoIter<V> {
    /// The underlying reader is sound.
    pub closed spec fn wf(&self) -> bool {
        self.reader.wf()
    }

    /// The bytes not yet consumed.
    pub closed spec fn remaining(&self) -> Seq<u8> {
        self.reader@
    }

    /// Read the next game; `None` when nothing but whitespace remains.  As
    /// with `read_game`, a game the visitor rejects is left unconsumed past
    /// the point of rejection.
    pub fn next(&mut self) -> (r: Option<Result<Result<V::Output, V::Error>, ReadError>>)
        requires
            old(self).wf(),
        ensures
            final(self).wf(),
            ({
                let g = game(old(self).remaining());
                match r {
                    None => !g.present && final(self).remaining() == old(self).remaining().skip(
                        g.end,
                    ),
                    Some(Ok(Ok(_))) => g.present && g.err is None && final(self).remaining()
                        == old(self).remaining().skip(g.end),
                    Some(Ok(Err(_))) => g.present && exists|j: int|
                        #[trigger] game_reaches(old(self).remaining(), j)
                            && final(self).remaining() == old(self).remaining().skip(j),
                    Some(Err(e)) => g.err == Some(e)
                        && final(self).remaining() == old(self).remaining().skip(g.end),
                }
            }),
    {
        match self.reader.read_game(&mut self.visitor) {
            Ok(Some(res)) => Some(Ok(res)),
            Ok(None) => None,
            Err(e) => Some(Err(e)),
        }
    }

    /// Take the reader and the visitor back.
    pub fn into_parts(self) -> (r: (BufferedReader, V))
        requires
            self.wf(),
        ensures
            r.0.wf(),
            r.0@ == self.remaining(),
    {
        let IntoIter { reader, visitor } = self;
        (reader, visitor)
    }
}

/// A terminator byte check, mirroring the model's class.
fn is_terminator(b: u8) -> (r: bool)
    ensures
        r == is_terminator_byte(b),
{
    b == 32 || b == 9 || b == 10 || b == 13 || b == 123 || b == 125 || b == 40 || b == 41
        || b == 33 || b == 63 || b == 36 || b == 59 || b == 46
}

} // verus!
