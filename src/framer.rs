use vstd::prelude::*;

verus! {

/// The record terminator.
pub const TERMINATOR: char = '\n';

/// What `str::trim` returns for a text: the text without leading and trailing
/// whitespace.
pub uninterp spec fn trimmed(s: Seq<char>) -> Seq<char>;

/// `part` is a contiguous run of the characters of `whole`.
pub open spec fn is_slice_of(part: Seq<char>, whole: Seq<char>) -> bool {
    exists|i: int, j: int| 0 <= i <= j <= whole.len() && part == whole.subrange(i, j)
}

/// Relies on `str::trim`: the result is a contiguous slice of its argument,
/// which depends on the characters alone.
#[verifier::external_body]
fn trim_text(s: &str) -> (r: String)
    ensures
        r@ == trimmed(s@),
        is_slice_of(r@, s@),
{
    s.trim().to_string()
}

/// The scan state: records completed so far and the text of the record in
/// progress.
pub type ScanState = (Seq<Seq<char>>, Seq<char>);

/// One character through the framer: a terminator closes the pending record,
/// which is kept once trimmed if anything is left of it; any other character
/// extends the pending record.
pub open spec fn scan_char(st: ScanState, c: char) -> ScanState {
    if c == TERMINATOR {
        let t = trimmed(st.1);
        (if t.len() > 0 { st.0.push(t) } else { st.0 }, Seq::empty())
    } else {
        (st.0, st.1.push(c))
    }
}

/// A whole text through the framer, character by character.
pub open spec fn scan(st: ScanState, text: Seq<char>) -> ScanState
    decreases text.len(),
{
    if text.len() == 0 {
        st
    } else {
        scan_char(scan(st, text.drop_last()), text.last())
    }
}

/// The records that a text yields from a given pending record.
pub open spec fn records_of(pending: Seq<char>, text: Seq<char>) -> Seq<Seq<char>> {
    scan((Seq::empty(), pending), text).0
}

/// The pending record that is left once a text has been framed.
pub open spec fn pending_after(pending: Seq<char>, text: Seq<char>) -> Seq<char> {
    scan((Seq::empty(), pending), text).1
}

pub open spec fn has_terminator(s: Seq<char>) -> bool {
    s.contains(TERMINATOR)
}

/// The chunks of a stream laid end to end.
pub open spec fn joined(chunks: Seq<Seq<char>>) -> Seq<char>
    decreases chunks.len(),
{
    if chunks.len() == 0 {
        Seq::empty()
    } else {
        joined(chunks.drop_last()) + chunks.last()
    }
}

/// Feeding the chunks one by one, as `Framer::feed` does: the records of all
/// calls in order, and the pending record left at the end.
pub open spec fn feed_all(pending: Seq<char>, chunks: Seq<Seq<char>>) -> ScanState
    decreases chunks.len(),
{
    if chunks.len() == 0 {
        (Seq::empty(), pending)
    } else {
        let prev = feed_all(pending, chunks.drop_last());
        (
            prev.0 + records_of(prev.1, chunks.last()),
            pending_after(prev.1, chunks.last()),
        )
    }
}

/// Scanning a text in two parts is scanning it whole.
pub proof fn lemma_scan_append(st: ScanState, a: Seq<char>, b: Seq<char>)
    ensures
        scan(st, a + b) == scan(scan(st, a), b),
    decreases b.len(),
{
    if b.len() == 0 {
        assert(a + b =~= a);
    } else {
        assert((a + b).drop_last() =~= a + b.drop_last());
        lemma_scan_append(st, a, b.drop_last());
    }
}

/// Records found earlier are kept in front of those that a scan adds.
pub proof fn lemma_scan_keeps_records(done: Seq<Seq<char>>, pending: Seq<char>, text: Seq<char>)
    ensures
        scan((done, pending), text) == (
            done + records_of(pending, text),
            pending_after(pending, text),
        ),
    decreases text.len(),
{
    if text.len() == 0 {
        assert(done + Seq::<Seq<char>>::empty() =~= done);
    } else {
        lemma_scan_keeps_records(done, pending, text.drop_last());
        let prev = scan((Seq::empty(), pending), text.drop_last());
        let t = trimmed(prev.1);
        assert((done + prev.0).push(t) =~= done + prev.0.push(t));
    }
}

/// A text cut at each terminator: the pieces between terminators, in order,
/// the last one being the text after the last terminator.
pub open spec fn pieces(s: Seq<char>) -> Seq<Seq<char>>
    decreases s.len(),
{
    if s.len() == 0 {
        seq![Seq::empty()]
    } else if s[0] == TERMINATOR {
        seq![Seq::<char>::empty()] + pieces(s.drop_first())
    } else {
        let rest = pieces(s.drop_first());
        rest.update(0, seq![s[0]] + rest[0])
    }
}

/// The trimmed pieces that are not empty once trimmed, in order.
pub open spec fn kept(ps: Seq<Seq<char>>) -> Seq<Seq<char>>
    decreases ps.len(),
{
    if ps.len() == 0 {
        Seq::empty()
    } else {
        let t = trimmed(ps[0]);
        (if t.len() > 0 {
            seq![t]
        } else {
            Seq::empty()
        }) + kept(ps.drop_first())
    }
}

proof fn lemma_pieces_nonempty(s: Seq<char>)
    ensures
        pieces(s).len() >= 1,
    decreases s.len(),
{
    if s.len() > 0 {
        lemma_pieces_nonempty(s.drop_first());
    }
}

proof fn lemma_pieces_of_line(p: Seq<char>, rest: Seq<char>)
    requires
        !has_terminator(p),
    ensures
        pieces(p) == seq![p],
        pieces(p + seq![TERMINATOR] + rest) == seq![p] + pieces(rest),
    decreases p.len(),
{
    if p.len() == 0 {
        assert(p + seq![TERMINATOR] + rest =~= seq![TERMINATOR] + rest);
        assert((seq![TERMINATOR] + rest).drop_first() =~= rest);
        assert(p =~= Seq::<char>::empty());
    } else {
        let q = p.drop_first();
        assert(p[0] != TERMINATOR);
        assert(!has_terminator(q)) by {
            if q.contains(TERMINATOR) {
                let m = choose|m: int| 0 <= m < q.len() && q[m] == TERMINATOR;
                assert(p[m + 1] == TERMINATOR);
            }
        }
        lemma_pieces_of_line(q, rest);
        assert((p + seq![TERMINATOR] + rest).drop_first() =~= q + seq![TERMINATOR] + rest);
        assert(seq![p[0]] + q =~= p);
        assert((seq![q] + pieces(rest)).update(0, seq![p[0]] + q) =~= seq![p] + pieces(rest));
        assert(seq![q].update(0, seq![p[0]] + q) =~= seq![p]);
    }
}

proof fn lemma_kept_front(p: Seq<char>, ps: Seq<Seq<char>>)
    ensures
        kept(seq![p] + ps) == (if trimmed(p).len() > 0 {
            seq![trimmed(p)]
        } else {
            Seq::empty()
        }) + kept(ps),
{
    assert((seq![p] + ps).drop_first() =~= ps);
}

/// The framer's records are exactly the text split on terminators, each
/// piece trimmed, the empty ones dropped; what follows the last terminator
/// is what stays pending.
pub proof fn lemma_records_are_split_text(pending: Seq<char>, text: Seq<char>)
    requires
        !has_terminator(pending),
    ensures
        records_of(pending, text) == kept(pieces(pending + text).drop_last()),
        pending_after(pending, text) == pieces(pending + text).last(),
    decreases text.len(),
{
    lemma_pieces_nonempty(pending + text);
    if text.len() == 0 {
        lemma_pieces_of_line(pending, Seq::empty());
        assert(pending + text =~= pending);
        assert(seq![pending].drop_last() =~= Seq::<Seq<char>>::empty());
    } else {
        let c = text[0];
        let rest = text.drop_first();
        assert(text =~= seq![c] + rest);
        lemma_scan_append((Seq::empty(), pending), seq![c], rest);
        assert(seq![c].drop_last() =~= Seq::<char>::empty());
        assert(seq![c].last() == c);
        assert(scan((Seq::empty(), pending), Seq::<char>::empty()) == (Seq::<Seq<char>>::empty(), pending));
        if c == TERMINATOR {
            let t = trimmed(pending);
            let done: Seq<Seq<char>> = if t.len() > 0 {
                seq![t]
            } else {
                Seq::empty()
            };
            assert(scan((Seq::empty(), pending), seq![c]) == (done, Seq::<char>::empty()));
            lemma_scan_keeps_records(done, Seq::empty(), rest);
            lemma_records_are_split_text(Seq::empty(), rest);
            assert(Seq::<char>::empty() + rest =~= rest);
            lemma_pieces_of_line(pending, rest);
            assert(pending + text =~= pending + seq![TERMINATOR] + rest);
            lemma_pieces_nonempty(rest);
            assert((seq![pending] + pieces(rest)).drop_last() =~= seq![pending] + pieces(rest).drop_last());
            lemma_kept_front(pending, pieces(rest).drop_last());
        } else {
            let p2 = pending.push(c);
            assert(!has_terminator(p2)) by {
                if p2.contains(TERMINATOR) {
                    let m = choose|m: int| 0 <= m < p2.len() && p2[m] == TERMINATOR;
                    if m < pending.len() {
                        assert(pending[m] == TERMINATOR);
                    }
                }
            }
            assert(scan((Seq::empty(), pending), seq![c]) == (Seq::<Seq<char>>::empty(), p2));
            lemma_records_are_split_text(p2, rest);
            assert(p2 + rest =~= pending + text);
        }
    }
}

/// Feeding a stream chunk by chunk yields, in order, exactly the records of
/// the accumulated pending text followed by all the chunks laid end to end,
/// and leaves the same pending record: where the chunks are cut does not
/// matter.
pub proof fn lemma_feed_chunks(pending: Seq<char>, chunks: Seq<Seq<char>>)
    ensures
        feed_all(pending, chunks).0 == records_of(pending, joined(chunks)),
        feed_all(pending, chunks).1 == pending_after(pending, joined(chunks)),
    decreases chunks.len(),
{
    lemma_feed_chunks_scan(pending, chunks);
}

/// Feeding a stream chunk by chunk, from a pending record without a
/// terminator, yields exactly the pieces of the pending record followed by
/// all the chunks, split on terminators, trimmed, with the empty ones
/// dropped, in order; the piece after the last terminator stays pending.
pub proof fn lemma_feed_chunks_splits_stream(pending: Seq<char>, chunks: Seq<Seq<char>>)
    requires
        !has_terminator(pending),
    ensures
        feed_all(pending, chunks).0 == kept(pieces(pending + joined(chunks)).drop_last()),
        feed_all(pending, chunks).1 == pieces(pending + joined(chunks)).last(),
{
    lemma_feed_chunks_scan(pending, chunks);
    lemma_records_are_split_text(pending, joined(chunks));
}

proof fn lemma_feed_chunks_scan(pending: Seq<char>, chunks: Seq<Seq<char>>)
    ensures
        feed_all(pending, chunks).0 == records_of(pending, joined(chunks)),
        feed_all(pending, chunks).1 == pending_after(pending, joined(chunks)),
    decreases chunks.len(),
{
    if chunks.len() > 0 {
        let init = chunks.drop_last();
        lemma_feed_chunks_scan(pending, init);
        let prev = feed_all(pending, init);
        lemma_scan_append((Seq::empty(), pending), joined(init), chunks.last());
        lemma_scan_keeps_records(prev.0, prev.1, chunks.last());
    }
}

/// Splits a stream of text chunks into newline-terminated records, carrying
/// the unterminated tail over from one chunk to the next.
pub struct Framer {
    pending: String,
}

impl View for Framer {
    type V = Seq<char>;

    closed spec fn view(&self) -> Seq<char> {
        self.pending@
    }
}

impl Framer {
    /// The pending record never holds a terminator.
    pub open spec fn wf(&self) -> bool {
        !has_terminator(self@)
    }

    pub fn new() -> (f: Framer)
        ensures
            f@ == Seq::<char>::empty(),
            f.wf(),
    {
        Framer { pending: String::new() }
    }

    /// The text of the record in progress.
    pub fn pending(&self) -> (r: &str)
        ensures
            r@ == self@,
    {
        self.pending.as_str()
    }

    /// Appends `chunk` to the pending record and returns, in order, every
    /// trimmed non-empty record that a terminator completes. The text after
    /// the last terminator becomes the new pending record.
    pub fn feed(&mut self, chunk: &str) -> (records: Vec<String>)
        requires
            old(self).wf(),
        ensures
            final(self).wf(),
            records@.map_values(|r: String| r@) == records_of(old(self)@, chunk@),
            final(self)@ == pending_after(old(self)@, chunk@),
            forall|k: int| 0 <= k < records@.len() ==> records@[k]@.len() > 0,
            forall|k: int| 0 <= k < records@.len() ==> !has_terminator(#[trigger] records@[k]@),
    {
        let n = chunk.unicode_len();
        let mut records: Vec<String> = Vec::new();
        let mut start: usize = 0;
        let mut i: usize = 0;
        let ghost p0 = self@;
        while i < n
            invariant
                n == chunk@.len(),
                start <= i <= n,
                !has_terminator(self@),
                !has_terminator(chunk@.subrange(start as int, i as int)),
                scan((Seq::empty(), p0), chunk@.subrange(0, i as int)) == (
                    records@.map_values(|r: String| r@),
                    self@ + chunk@.subrange(start as int, i as int),
                ),
                forall|k: int| 0 <= k < records@.len() ==> records@[k]@.len() > 0,
                forall|k: int| 0 <= k < records@.len() ==> !has_terminator(#[trigger] records@[k]@),
            decreases n - i,
        {
            let c = chunk.get_char(i);
            let ghost before = records@.map_values(|r: String| r@);
            let ghost cur = self@ + chunk@.subrange(start as int, i as int);
            assert(chunk@.subrange(0, i + 1).drop_last() =~= chunk@.subrange(0, i as int));
            if c == TERMINATOR {
                self.pending.append(chunk.substring_char(start, i));
                assert(self@ =~= cur);
                let t = trim_text(self.pending.as_str());
                if !t.as_str().is_empty() {
                    proof {
                        let (a, b) = choose|a: int, b: int|
                            0 <= a <= b <= cur.len() && t@ == cur.subrange(a, b);
                        let tail = chunk@.subrange(start as int, i as int);
                        let head_len = cur.len() - tail.len();
                        assert forall|m: int| 0 <= m < t@.len() implies t@[m] != TERMINATOR by {
                            assert(cur[a + m] == t@[m]);
                            if a + m >= head_len {
                                assert(tail[a + m - head_len] == cur[a + m]);
                            }
                        }
                    }
                    records.push(t);
                }
                self.pending = String::new();
                start = i + 1;
                assert(records@.map_values(|r: String| r@) =~= scan_char((before, cur), c).0);
            } else {
                assert(chunk@.subrange(start as int, i + 1) =~= chunk@.subrange(start as int, i as int).push(c));
            }
            assert(self@ + chunk@.subrange(start as int, i + 1) =~= scan_char((before, cur), c).1);
            i = i + 1;
        }
        self.pending.append(chunk.substring_char(start, n));
        assert(chunk@.subrange(0, n as int) =~= chunk@);
        records
    }
}

} // verus!
