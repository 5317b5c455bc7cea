//! The log-structured engine: which records go where, what the index holds,
//! and when and how the segments are compacted. The files themselves are
//! read and written by the caller, which reports each step back.
use crate::codec::{
    encode_ops, decode_ops, lemma_parse_record_bytes, lemma_parse_record_len, lemma_parse_record_local, parse_record, record_bytes,
    Ops, RecordView,
};
use crate::error::{KVError, KVErrorKind};
use crate::index::{lemma_sum_lens_prefix, lookup, sum_lens, CommandPos, KeyIndex};
use vstd::prelude::*;

verus! {

/// Compaction runs once this many bytes of the log are stale.
pub const COMPACTION_THRESHOLD: u64 = 2 * 1024 * 1024;

/// The effect of one record on the key-value map.
pub open spec fn apply_record(
    m: Map<Seq<char>, Seq<char>>,
    r: RecordView,
) -> Map<Seq<char>, Seq<char>> {
    match r {
        RecordView::Put { key, val } => m.insert(key, val),
        RecordView::Remove { key } => m.remove(key),
    }
}

/// Replays the records of one segment, front to back, on top of `m`; `None`
/// where the bytes are not a sequence of whole records.
pub open spec fn replay_bytes(m: Map<Seq<char>, Seq<char>>, b: Seq<u8>) -> Option<
    Map<Seq<char>, Seq<char>>,
>
    decreases b.len(),
{
    if b.len() == 0 {
        Some(m)
    } else {
        match parse_record(b) {
            Some((r, n)) => if 0 < n <= b.len() {
                replay_bytes(apply_record(m, r), b.skip(n))
            } else {
                None
            },
            None => None,
        }
    }
}

/// Replays segments in order, from an empty map: what opening a store
/// on them yields.
pub open spec fn replay_segments(segs: Seq<Seq<u8>>) -> Option<Map<Seq<char>, Seq<char>>>
    decreases segs.len(),
{
    if segs.len() == 0 {
        Some(Map::empty())
    } else {
        match replay_segments(segs.drop_last()) {
            Some(m) => replay_bytes(m, segs.last()),
            None => None,
        }
    }
}

/// Replaying two byte runs one after the other is replaying their concatenation.
pub proof fn lemma_replay_concat(m: Map<Seq<char>, Seq<char>>, a: Seq<u8>, c: Seq<u8>)
    requires
        replay_bytes(m, a) is Some,
    ensures
        replay_bytes(m, a + c) == replay_bytes(replay_bytes(m, a).unwrap(), c),
    decreases a.len(),
{
    if a.len() == 0 {
        assert(a + c =~= c);
    } else {
        let (r, n) = parse_record(a).unwrap();
        assert((a + c).subrange(0, n) =~= a.subrange(0, n));
        lemma_parse_record_local(a, a + c);
        assert((a + c).skip(n) =~= a.skip(n) + c);
        lemma_replay_concat(apply_record(m, r), a.skip(n), c);
    }
}

/// Replaying bytes that hold exactly one record applies that record.
pub proof fn lemma_replay_one(m: Map<Seq<char>, Seq<char>>, c: Seq<u8>, r: RecordView)
    requires
        parse_record(c) == Some((r, c.len() as int)),
        c.len() > 0,
    ensures
        replay_bytes(m, c) == Some(apply_record(m, r)),
{
    assert(c.skip(c.len() as int) =~= Seq::<u8>::empty());
    assert(replay_bytes(apply_record(m, r), c.skip(c.len() as int)) == Some(apply_record(m, r)));
}

/// The total length of all segments.
pub open spec fn total_size(img: Seq<Seq<u8>>) -> int
    decreases img.len(),
{
    if img.len() == 0 {
        0
    } else {
        total_size(img.drop_last()) + img.last().len()
    }
}

/// The bytes of each input segment.
pub open spec fn input_image(segments: Seq<(u64, Vec<u8>)>) -> Seq<Seq<u8>> {
    Seq::new(segments.len(), |i: int| segments[i].1@)
}

/// The engine's state: the index of live keys, the segments that exist
/// (the last is the one appended to), the count of stale bytes and the
/// stale-generation watermark. Alongside, as ghost state, the bytes each
/// segment holds and the key-value map the store stands for.
pub struct LogCore {
    index: KeyIndex,
    gens: Vec<u64>,
    writer_pos: u64,
    uncompacted: u64,
    stale_gen: u64,
    segs: Ghost<Map<u64, Seq<u8>>>,
    contents: Ghost<Map<Seq<char>, Seq<char>>>,
}

impl View for LogCore {
    type V = Map<Seq<char>, Seq<char>>;

    /// The key-value map that the store stands for.
    closed spec fn view(&self) -> Map<Seq<char>, Seq<char>> {
        self.contents@
    }
}

impl LogCore {
    /// The generations of the segments that exist, ascending.
    pub closed spec fn gens(&self) -> Seq<u64> {
        self.gens@
    }

    /// The bytes that segment `g` holds.
    pub open spec fn segment(&self, g: u64) -> Seq<u8> {
        self.segments()[g]
    }

    /// The bytes of every segment, in ascending generation order.
    pub open spec fn image(&self) -> Seq<Seq<u8>> {
        Seq::new(self.gens().len(), |i: int| self.segment(self.gens()[i]))
    }

    /// The generation that records are appended to.
    pub open spec fn current(&self) -> u64 {
        self.gens().last()
    }

    /// The bytes a location covers.
    pub open spec fn record_at(&self, loc: CommandPos) -> Seq<u8> {
        self.segment(loc.gen).subrange(loc.pos as int, loc.pos + loc.len)
    }

    /// `loc` lies in a segment that exists and covers a record that sets
    /// `key` to `val`.
    pub open spec fn holds(&self, loc: CommandPos, key: Seq<char>, val: Seq<char>) -> bool {
        located(self.gens(), self.segments(), loc, key, val)
    }

    /// The bytes of each segment, by generation.
    pub closed spec fn segments(&self) -> Map<u64, Seq<u8>> {
        self.segs@
    }

    /// The count of stale bytes that decides when compaction runs.
    pub closed spec fn uncompacted_bytes(&self) -> u64 {
        self.uncompacted
    }

    /// The stale-generation watermark.
    pub closed spec fn watermark(&self) -> u64 {
        self.stale_gen
    }

    /// Where the record of each live key lies.
    pub closed spec fn locations(&self) -> Map<Seq<char>, CommandPos> {
        self.index@
    }

    /// The invariant that every operation keeps.
    pub closed spec fn wf(&self) -> bool {
        &&& self.index.wf()
        &&& self.gens@.len() >= 1
        &&& forall|i: int, j: int| 0 <= i < j < self.gens@.len() ==> self.gens@[i] < self.gens@[j]
        &&& forall|g: u64| #[trigger] self.segs@.contains_key(g) <== self.gens@.contains(g)
        &&& self.writer_pos == self.segs@[self.gens@.last()].len()
        &&& self.stale_gen < self.gens@[0]
        &&& self.index@.dom() == self.contents@.dom()
        &&& forall|k: Seq<char>| #[trigger]
            self.index@.contains_key(k) ==> located(
                self.gens@,
                self.segs@,
                self.index@[k],
                k,
                self.contents@[k],
            )
        &&& replay_segments(self.image()) == Some(self.contents@)
        &&& total_size(self.image()) >= self.index.live_len() + self.uncompacted
    }

    /// The total length of the records that live keys point at.
    pub closed spec fn live_bytes(&self) -> int {
        self.index.live_len()
    }

    /// The segments hold at least the live records and the stale bytes.
    pub proof fn lemma_sizes(&self)
        requires
            self.wf(),
        ensures
            total_size(self.image()) >= self.live_bytes() + self.uncompacted_bytes(),
            self.live_bytes() == sum_lens(self.index_locs()),
    {
        assert(self.index.locs() =~= self.index_locs());
    }

    /// The segments replay to the map the store stands for.
    pub proof fn lemma_wf_replay(&self)
        requires
            self.wf(),
        ensures
            replay_segments(self.image()) == Some(self@),
    {
    }

    /// Opens the store on the segments that exist, given in ascending order
    /// of generation with their bytes: replays every record into the index,
    /// then starts an empty segment one generation above the last.
    pub fn recover(segments: &Vec<(u64, Vec<u8>)>) -> (r: Result<LogCore, KVError>)
        requires
            forall|i: int, j: int|
                0 <= i < j < segments@.len() ==> segments@[i].0 < segments@[j].0,
            forall|i: int|
                0 <= i < segments@.len() ==> segments@[i].0 >= 1 && segments@[i].1@.len()
                    <= u64::MAX,
            segments@.len() > 0 ==> segments@.last().0 < u64::MAX,
        ensures
            match r {
                Ok(c) => {
                    &&& c.wf()
                    &&& replay_segments(input_image(segments@)) == Some(c@)
                    &&& c.image() == input_image(segments@).push(Seq::<u8>::empty())
                    &&& c.gens().drop_last() == Seq::new(
                        segments@.len(),
                        |i: int| segments@[i].0,
                    )
                    &&& c.current() == if segments@.len() == 0 {
                        1
                    } else {
                        segments@.last().0 + 1
                    }
                    &&& c.watermark() == 0
                },
                Err(e) => replay_segments(input_image(segments@)) is None && e.inner
                    == KVErrorKind::JsonError,
            },
            match r {
                Ok(c) => recovered_index(segments@) == Some((c.locations(), c.uncompacted_bytes())),
                Err(_) => true,
            },
    {
        let ghost img = input_image(segments@);
        let mut index = KeyIndex::new();
        let mut gens: Vec<u64> = Vec::new();
        let mut uncompacted: u64 = 0;
        let ghost mut segs: Map<u64, Seq<u8>> = Map::empty();
        let ghost mut contents: Map<Seq<char>, Seq<char>> = Map::empty();
        let mut s: usize = 0;
        assert(img.take(0) =~= Seq::<Seq<u8>>::empty());
        assert(segments@.take(0) =~= Seq::<(u64, Vec<u8>)>::empty());
        while s < segments.len()
            invariant
                s <= segments@.len(),
                img == input_image(segments@),
                forall|i: int, j: int|
                    0 <= i < j < segments@.len() ==> segments@[i].0 < segments@[j].0,
                forall|i: int|
                    0 <= i < segments@.len() ==> segments@[i].0 >= 1 && segments@[i].1@.len()
                        <= u64::MAX,
                index.wf(),
                gens@ == Seq::new(s as nat, |i: int| segments@[i].0),
                forall|g: u64| #[trigger] segs.contains_key(g) <== gens@.contains(g),
                forall|i: int| 0 <= i < s ==> #[trigger] segs[gens@[i]] == img[i],
                index@.dom() == contents.dom(),
                forall|k: Seq<char>| #[trigger]
                    index@.contains_key(k) ==> located(gens@, segs, index@[k], k, contents[k]),
                replay_segments(img.take(s as int)) == Some(contents),
                index.live_len() + uncompacted <= total_size(img.take(s as int)),
                recovered_index(segments@.take(s as int)) == Some((index@, uncompacted)),
            decreases segments@.len() - s,
        {
            let gen = segments[s].0;
            let bytes = &segments[s].1;
            let ghost before_gens = gens@;
            gens.push(gen);
            proof {
                segs = segs.insert(gen, bytes@);
                assert forall|g: u64| #[trigger] segs.contains_key(g) <== gens@.contains(g) by {
                    if gens@.contains(g) && g != gen {
                        let t = choose|t: int| 0 <= t < gens@.len() && gens@[t] == g;
                        assert(before_gens[t] == g);
                    }
                }
                assert forall|i: int| 0 <= i < s + 1 implies #[trigger] segs[gens@[i]]
                    == img[i] by {
                    if i < s {
                        assert(gens@[i] != gen);
                    }
                }
                assert forall|k: Seq<char>| #[trigger]
                    index@.contains_key(k) implies located(gens@, segs, index@[k], k, contents[k]) by {
                    let loc = index@[k];
                    let t = choose|t: int| 0 <= t < before_gens.len() && before_gens[t] == loc.gen;
                    assert(gens@[t] == loc.gen);
                    assert(loc.gen != gen);
                }
            }
            let ghost m0 = contents;
            match replay_segment(
                &mut index,
                &mut uncompacted,
                gen,
                bytes,
                Ghost(gens@),
                Ghost(segs),
                Ghost(m0),
                Ghost(total_size(img.take(s as int))),
            ) {
                None => {
                    proof {
                        assert(img.take(s as int + 1).drop_last() =~= img.take(s as int));
                        assert(img.take(s as int + 1).last() == bytes@);
                        lemma_replay_prefix_none(img, s as int + 1);
                    }
                    return Err(KVError::new(KVErrorKind::JsonError));
                },
                Some(m) => {
                    proof {
                        contents = m@;
                    }
                },
            }
            proof {
                assert(img.take(s as int + 1).drop_last() =~= img.take(s as int));
                assert(img.take(s as int + 1).last() == bytes@);
                assert(segments@.take(s as int + 1).drop_last() =~= segments@.take(s as int));
                assert(segments@.take(s as int + 1).last() == segments@[s as int]);
            }
            s = s + 1;
        }
        assert(img.take(s as int) =~= img);
        assert(segments@.take(s as int) =~= segments@);
        let next: u64 = if gens.len() == 0 {
            1
        } else {
            gens[gens.len() - 1] + 1
        };
        let ghost before_gens = gens@;
        gens.push(next);
        let ghost empty = Seq::<u8>::empty();
        proof {
            segs = segs.insert(next, empty);
            assert forall|g: u64| #[trigger] segs.contains_key(g) <== gens@.contains(g) by {
                if gens@.contains(g) && g != next {
                    let t = choose|t: int| 0 <= t < gens@.len() && gens@[t] == g;
                    assert(before_gens[t] == g);
                }
            }
            assert forall|k: Seq<char>| #[trigger]
                index@.contains_key(k) implies located(gens@, segs, index@[k], k, contents[k]) by {
                let loc = index@[k];
                let t = choose|t: int| 0 <= t < before_gens.len() && before_gens[t] == loc.gen;
                assert(gens@[t] == loc.gen);
                assert(loc.gen != next);
            }
        }
        let core = LogCore {
            index,
            gens,
            writer_pos: 0,
            uncompacted,
            stale_gen: 0,
            segs: Ghost(segs),
            contents: Ghost(contents),
        };
        proof {
            assert(core.image().drop_last() =~= img);
            assert(core.image() =~= img.push(empty));
            assert(replay_bytes(contents, empty) == Some(contents));
            assert(core.image().drop_last() =~= img);
            assert(total_size(core.image()) == total_size(img));
        }
        Ok(core)
    }
}

/// `a + b`, or the largest `u64` where the sum does not fit.
pub open spec fn sat_add(a: u64, b: u64) -> u64 {
    if a + b > u64::MAX {
        u64::MAX
    } else {
        (a + b) as u64
    }
}

/// The stale-byte count after a record at `displaced` stops being live.
pub open spec fn after_displacing(unc: u64, displaced: Option<CommandPos>) -> u64 {
    match displaced {
        Some(l) => sat_add(unc, l.len),
        None => unc,
    }
}

impl LogCore {
    /// The generation that records are appended to.
    pub fn current_gen(&self) -> (r: u64)
        requires
            self.wf(),
        ensures
            r == self.current(),
    {
        self.gens[self.gens.len() - 1]
    }

    /// The length of the segment that records are appended to.
    pub fn writer_pos(&self) -> (r: u64)
        requires
            self.wf(),
        ensures
            r == self.segment(self.current()).len(),
    {
        self.writer_pos
    }

    /// The generations of the segments that exist, ascending.
    pub fn generations(&self) -> (r: Vec<u64>)
        ensures
            r@ == self.gens(),
    {
        self.gens.clone()
    }

    /// The stale-generation watermark: readers drop what they hold open of
    /// any segment at or below it.
    pub fn stale_gen(&self) -> (r: u64)
        ensures
            r == self.watermark(),
    {
        self.stale_gen
    }

    /// The number of bytes of the log that no live key needs.
    pub fn uncompacted(&self) -> (r: u64)
        ensures
            r == self.uncompacted_bytes(),
    {
        self.uncompacted
    }

    /// Whether enough of the log is stale for compaction to run.
    pub fn compaction_due(&self) -> (r: bool)
        ensures
            r == (self.uncompacted_bytes() > COMPACTION_THRESHOLD),
    {
        self.uncompacted > COMPACTION_THRESHOLD
    }

    /// Where the value of `key` lies, if the key is live.
    pub fn locate(&self, key: &String) -> (r: Option<CommandPos>)
        requires
            self.wf(),
        ensures
            match r {
                Some(loc) => self@.contains_key(key@) && self.holds(loc, key@, self@[key@]),
                None => !self@.contains_key(key@),
            },
    {
        let r = self.index.get(key);
        proof {
            if self.index@.contains_key(key@) {
                assert(located(self.gens@, self.segs@, self.index@[key@], key@, self.contents@[key@]));
            }
        }
        r
    }

    /// Whether `key` is live.
    pub fn contains(&self, key: &String) -> (r: bool)
        requires
            self.wf(),
        ensures
            r == self@.contains_key(key@),
    {
        self.index.get(key).is_some()
    }

    /// Takes note that `rec`, the record that sets `key` to `val`, has been
    /// appended to the current segment and flushed: the index points the key
    /// at it, and the record it displaces becomes stale. Returns whether
    /// compaction is due.
    pub fn commit_set(&mut self, key: String, val: &String, rec: &Vec<u8>) -> (due: bool)
        requires
            old(self).wf(),
            rec@ == record_bytes(RecordView::Put { key: key@, val: val@ }),
            old(self).segment(old(self).current()).len() + rec@.len() <= u64::MAX,
        ensures
            final(self).wf(),
            final(self)@ == old(self)@.insert(key@, val@),
            final(self).locations() == old(self).locations().insert(
                key@,
                CommandPos {
                    gen: old(self).current(),
                    pos: old(self).segment(old(self).current()).len() as u64,
                    len: rec@.len() as u64,
                },
            ),
            final(self).gens() == old(self).gens(),
            final(self).segments() == old(self).segments().insert(
                old(self).current(),
                old(self).segment(old(self).current()) + rec@,
            ),
            final(self).watermark() == old(self).watermark(),
            final(self).uncompacted_bytes() == after_displacing(
                old(self).uncompacted_bytes(),
                lookup(old(self).locations(), key@),
            ),
            due == (final(self).uncompacted_bytes() > COMPACTION_THRESHOLD),
    {
        let ghost k = key@;
        let ghost v = val@;
        let ghost old_self = *self;
        let loc = CommandPos { gen: self.current_gen(), pos: self.writer_pos, len: rec.len() as u64 };
        let displaced = self.index.insert(key, loc);
        if let Some(prev) = displaced {
            self.uncompacted = self.uncompacted.saturating_add(prev.len);
        }
        self.writer_pos = self.writer_pos + rec.len() as u64;
        let ghost cur = old_self.gens@.last();
        self.segs = Ghost(old_self.segs@.insert(cur, old_self.segs@[cur] + rec@));
        self.contents = Ghost(old_self.contents@.insert(k, v));
        proof {
            LogCore::lemma_after_set(old_self, *self, k, v, rec@, loc);
        }
        self.uncompacted > COMPACTION_THRESHOLD
    }

    /// The tombstone to append for removing `key`, or `KeyNotFound` when the
    /// key is not live.
    pub fn begin_remove(&self, key: &String) -> (r: Result<Vec<u8>, KVError>)
        requires
            self.wf(),
        ensures
            match r {
                Ok(rec) => self@.contains_key(key@) && rec@ == record_bytes(
                    RecordView::Remove { key: key@ },
                ),
                Err(e) => !self@.contains_key(key@) && e.inner == KVErrorKind::KeyNotFound,
            },
    {
        if self.contains(key) {
            Ok(encode_ops(&Ops::rm(key.clone())))
        } else {
            Err(KVError::new(KVErrorKind::KeyNotFound))
        }
    }

    /// Takes note that `rec`, the tombstone of the live key `key`, has been
    /// appended to the current segment: the key leaves the index and its
    /// record becomes stale. Returns whether compaction is due.
    pub fn commit_remove(&mut self, key: &String, rec: &Vec<u8>) -> (due: bool)
        requires
            old(self).wf(),
            old(self)@.contains_key(key@),
            rec@ == record_bytes(RecordView::Remove { key: key@ }),
            old(self).segment(old(self).current()).len() + rec@.len() <= u64::MAX,
        ensures
            final(self).wf(),
            final(self)@ == old(self)@.remove(key@),
            final(self).locations() == old(self).locations().remove(key@),
            final(self).gens() == old(self).gens(),
            final(self).segments() == old(self).segments().insert(
                old(self).current(),
                old(self).segment(old(self).current()) + rec@,
            ),
            final(self).watermark() == old(self).watermark(),
            final(self).uncompacted_bytes() == after_displacing(
                old(self).uncompacted_bytes(),
                lookup(old(self).locations(), key@),
            ),
            due == (final(self).uncompacted_bytes() > COMPACTION_THRESHOLD),
    {
        let ghost k = key@;
        let ghost old_self = *self;
        let displaced = self.index.remove(key);
        if let Some(prev) = displaced {
            self.uncompacted = self.uncompacted.saturating_add(prev.len);
        }
        self.writer_pos = self.writer_pos + rec.len() as u64;
        let ghost cur = old_self.gens@.last();
        self.segs = Ghost(old_self.segs@.insert(cur, old_self.segs@[cur] + rec@));
        self.contents = Ghost(old_self.contents@.remove(k));
        proof {
            let r = RecordView::Remove { key: k };
            LogCore::lemma_append(old_self, *self, rec@);
            assert(self.index@.dom() =~= self.contents@.dom());
            lemma_parse_record_bytes(r, Seq::empty());
            assert(rec@ + Seq::<u8>::empty() =~= rec@);
            lemma_replay_one(old_self.contents@, rec@, r);
            assert forall|kk: Seq<char>| #[trigger] self.index@.contains_key(kk) implies located(
                self.gens@,
                self.segs@,
                self.index@[kk],
                kk,
                self.contents@[kk],
            ) by {
                assert(old_self.index@.contains_key(kk));
            }
        }
        self.uncompacted > COMPACTION_THRESHOLD
    }

    /// Appending the record that sets `k` to `v`, and pointing `k` at it,
    /// keeps the invariant.
    proof fn lemma_after_set(
        before: LogCore,
        after: LogCore,
        k: Seq<char>,
        v: Seq<char>,
        rec: Seq<u8>,
        loc: CommandPos,
    )
        requires
            before.wf(),
            rec == record_bytes(RecordView::Put { key: k, val: v }),
            after.gens@ == before.gens@,
            after.stale_gen == before.stale_gen,
            after.segs@ == before.segs@.insert(
                before.gens@.last(),
                before.segs@[before.gens@.last()] + rec,
            ),
            after.writer_pos == before.writer_pos + rec.len(),
            loc == (CommandPos {
                gen: before.gens@.last(),
                pos: before.writer_pos,
                len: rec.len() as u64,
            }),
            after.index.wf(),
            after.index@ == before.index@.insert(k, loc),
            after.contents@ == before.contents@.insert(k, v),
            after.index.live_len() + after.uncompacted <= before.index.live_len()
                + before.uncompacted + rec.len(),
        ensures
            after.wf(),
    {
        let r = RecordView::Put { key: k, val: v };
        LogCore::lemma_append(before, after, rec);
        assert(after.index@.dom() =~= after.contents@.dom());
        lemma_parse_record_bytes(r, Seq::empty());
        assert(rec + Seq::<u8>::empty() =~= rec);
        let seg = after.segs@[loc.gen];
        assert(seg.subrange(loc.pos as int, loc.pos + loc.len) =~= rec);
        assert(located(after.gens@, after.segs@, loc, k, v));
        lemma_replay_one(before.contents@, rec, r);
        assert forall|kk: Seq<char>| #[trigger] after.index@.contains_key(kk) implies located(
            after.gens@,
            after.segs@,
            after.index@[kk],
            kk,
            after.contents@[kk],
        ) by {
            if kk != k {
                assert(before.index@.contains_key(kk));
            }
        }
    }

    /// Growing the segment that records are appended to by `rec` keeps every
    /// location that pointed into it, and the replay of what was there.
    proof fn lemma_append(before: LogCore, after: LogCore, rec: Seq<u8>)
        requires
            before.wf(),
            after.gens@ == before.gens@,
            after.segs@ == before.segs@.insert(
                before.gens@.last(),
                before.segs@[before.gens@.last()] + rec,
            ),
        ensures
            forall|g: u64| #[trigger] after.segs@.contains_key(g) <== after.gens@.contains(g),
            forall|k: Seq<char>|
                #![trigger before.index@.contains_key(k)]
                before.index@.contains_key(k) ==> located(
                    after.gens@,
                    after.segs@,
                    before.index@[k],
                    k,
                    before.contents@[k],
                ),
            replay_segments(after.image()) == replay_bytes(before.contents@, rec),
            total_size(after.image()) == total_size(before.image()) + rec.len(),
    {
        let cur = before.gens@.last();
        let seg = before.segs@[cur];
        assert forall|k: Seq<char>| #[trigger] before.index@.contains_key(k) implies located(
            after.gens@,
            after.segs@,
            before.index@[k],
            k,
            before.contents@[k],
        ) by {
            let loc = before.index@[k];
            assert(located(before.gens@, before.segs@, loc, k, before.contents@[k]));
            if loc.gen == cur {
                assert((seg + rec).subrange(loc.pos as int, loc.pos + loc.len) =~= seg.subrange(
                    loc.pos as int,
                    loc.pos + loc.len,
                ));
            }
        }
        let img = before.image();
        let img2 = after.image();
        assert forall|i: int| 0 <= i < img.len() - 1 implies before.gens@[i] != cur by {
            assert(before.gens@[i] < before.gens@[before.gens@.len() - 1]);
        }
        assert(img2.drop_last() =~= img.drop_last());
        assert(img2.last() == seg + rec);
        assert(img.last() == seg);
        let prev = replay_segments(img.drop_last()).unwrap();
        lemma_replay_concat(prev, seg, rec);
    }
}

/// What compaction copies: the generation of the new segment and, in
/// order, where the record of each live key lies. The caller writes the
/// records back to back into the new segment, flushes it, and hands the plan
/// back to `finish_compaction`.
pub struct CompactionPlan {
    gen: u64,
    sources: Vec<CommandPos>,
}

impl CompactionPlan {
    /// The generation of the new segment.
    pub closed spec fn gen_spec(&self) -> u64 {
        self.gen
    }

    /// The records to copy, in order.
    pub closed spec fn sources_spec(&self) -> Seq<CommandPos> {
        self.sources@
    }

    /// The generation of the new segment.
    pub fn gen(&self) -> (r: u64)
        ensures
            r == self.gen_spec(),
    {
        self.gen
    }

    /// The records to copy, in order.
    pub fn sources(&self) -> (r: &Vec<CommandPos>)
        ensures
            r@ == self.sources_spec(),
    {
        &self.sources
    }
}

/// The map that holds, for the first `i` keys of `keys`, their values in `m`.
pub open spec fn prefix_map(
    keys: Seq<Seq<char>>,
    m: Map<Seq<char>, Seq<char>>,
    i: int,
) -> Map<Seq<char>, Seq<char>>
    decreases i,
{
    if i <= 0 {
        Map::empty()
    } else {
        prefix_map(keys, m, i - 1).insert(keys[i - 1], m[keys[i - 1]])
    }
}

proof fn lemma_prefix_map(keys: Seq<Seq<char>>, m: Map<Seq<char>, Seq<char>>, i: int)
    requires
        0 <= i <= keys.len(),
    ensures
        forall|k: Seq<char>|
            #[trigger] prefix_map(keys, m, i).contains_key(k) <==> exists|j: int|
                0 <= j < i && keys[j] == k,
        forall|k: Seq<char>|
            #[trigger] prefix_map(keys, m, i).contains_key(k) ==> prefix_map(keys, m, i)[k]
                == m[k],
    decreases i,
{
    if i > 0 {
        lemma_prefix_map(keys, m, i - 1);
        let pm = prefix_map(keys, m, i - 1);
        assert forall|k: Seq<char>|
            #[trigger] prefix_map(keys, m, i).contains_key(k) <==> exists|j: int|
                0 <= j < i && keys[j] == k by {
            if prefix_map(keys, m, i).contains_key(k) {
                if k == keys[i - 1] {
                    assert(0 <= i - 1 < i && keys[i - 1] == k);
                } else {
                    assert(pm.contains_key(k));
                    let j = choose|j: int| 0 <= j < i - 1 && keys[j] == k;
                    assert(0 <= j < i && keys[j] == k);
                }
            }
            if exists|j: int| 0 <= j < i && keys[j] == k {
                let j = choose|j: int| 0 <= j < i && keys[j] == k;
                if j < i - 1 {
                    assert(pm.contains_key(k));
                }
            }
        }
    }
}

impl LogCore {
    /// The keys of the index, in the order compaction copies them.
    pub closed spec fn index_keys(&self) -> Seq<Seq<char>> {
        Seq::new(self.index.entries@.len(), |j: int| self.index.key_at(j))
    }

    /// Where the record of each key of `index_keys` lies.
    pub closed spec fn index_locs(&self) -> Seq<CommandPos> {
        Seq::new(self.index.entries@.len(), |j: int| self.index.entries@[j].loc)
    }

    /// The bytes of the records at `locs`, back to back.
    pub open spec fn copied(&self, locs: Seq<CommandPos>) -> Seq<u8>
        decreases locs.len(),
    {
        if locs.len() == 0 {
            Seq::empty()
        } else {
            self.copied(locs.drop_last()) + self.record_at(locs.last())
        }
    }

    /// `plan` is the plan of compacting this state: the next generation,
    /// and the location of every live record in index order, whose lengths
    /// add up to no more than a 64-bit offset can hold.
    pub open spec fn plan_matches(&self, plan: &CompactionPlan) -> bool {
        &&& plan.gen_spec() == self.current() + 1
        &&& plan.sources_spec() == self.index_locs()
        &&& sum_lens(plan.sources_spec()) <= u64::MAX
    }

    /// `index_keys` lists each live key once, and `index_locs` says where
    /// the record of each of them lies.
    pub proof fn lemma_index_order(&self)
        requires
            self.wf(),
        ensures
            self.index_keys().len() == self.index_locs().len(),
            forall|i: int|
                #![trigger self.index_keys()[i]]
                0 <= i < self.index_keys().len() ==> self.locations().contains_key(
                    self.index_keys()[i],
                ) && self.locations()[self.index_keys()[i]] == self.index_locs()[i],
            forall|i: int, j: int|
                0 <= i < j < self.index_keys().len() ==> self.index_keys()[i]
                    != self.index_keys()[j],
            forall|k: Seq<char>|
                #[trigger] self.locations().contains_key(k) ==> exists|i: int|
                    0 <= i < self.index_keys().len() && self.index_keys()[i] == k,
            self.locations().dom() == self@.dom(),
    {
        assert forall|k: Seq<char>| #[trigger] self.locations().contains_key(k) implies exists|i: int|
            0 <= i < self.index_keys().len() && self.index_keys()[i] == k by {
            let i = choose|i: int| 0 <= i < self.index.entries@.len() && self.index.key_at(i) == k;
            assert(self.index_keys()[i] == k);
        }
        assert forall|i: int| 0 <= i < self.index_keys().len() implies self.locations().contains_key(
            #[trigger] self.index_keys()[i],
        ) && self.locations()[self.index_keys()[i]] == self.index_locs()[i] by {
            assert(self.index.entries@[i] == self.index.entries@[i]);
        }
    }

    /// The plan of a compaction: a new generation one above the current
    /// one, and every live record in index order. `None` when the new
    /// generation or the new segment's length would not fit in 64 bits.
    pub fn compaction_plan(&self) -> (r: Option<CompactionPlan>)
        requires
            self.wf(),
        ensures
            match r {
                Some(plan) => self.plan_matches(&plan),
                None => self.current() == u64::MAX || sum_lens(self.index_locs()) > u64::MAX,
            },
    {
        let cur = self.current_gen();
        if cur == u64::MAX {
            return None;
        }
        let n = self.index.len();
        let mut sources: Vec<CommandPos> = Vec::new();
        let mut total: u64 = 0;
        let mut i: usize = 0;
        while i < n
            invariant
                self.wf(),
                n == self.index.entries@.len(),
                i <= n,
                sources@ == self.index_locs().take(i as int),
                total == sum_lens(sources@),
            decreases n - i,
        {
            let loc = self.index.loc_at(i);
            if total > u64::MAX - loc.len {
                proof {
                    assert(self.index_locs().take(i + 1).drop_last() =~= sources@);
                    lemma_sum_lens_prefix(self.index_locs(), i + 1);
                }
                return None;
            }
            sources.push(loc);
            total = total + loc.len;
            proof {
                assert(sources@ =~= self.index_locs().take(i + 1));
                assert(sources@.drop_last() =~= self.index_locs().take(i as int));
            }
            i = i + 1;
        }
        assert(sources@ =~= self.index_locs());
        Some(CompactionPlan { gen: cur + 1, sources })
    }

    /// Takes note that the records of `plan` have been copied, back to back,
    /// into the new segment `plan.gen` and flushed: the index points every key
    /// at its copy, the new segment becomes the only one and the one appended
    /// to, the watermark moves to one below it and no byte is stale any more.
    /// Returns the generations of the old segments, which the caller deletes.
    pub fn finish_compaction(&mut self, plan: &CompactionPlan) -> (r: Vec<u64>)
        requires
            old(self).wf(),
            old(self).plan_matches(plan),
        ensures
            final(self).wf(),
            final(self)@ == old(self)@,
            final(self).gens() == seq![plan.gen_spec()],
            final(self).segment(plan.gen_spec()) == old(self).copied(plan.sources_spec()),
            final(self).segment(plan.gen_spec()).len() == sum_lens(plan.sources_spec()),
            total_size(final(self).image()) == old(self).live_bytes(),
            final(self).watermark() == plan.gen_spec() - 1,
            final(self).watermark() == old(self).current(),
            old(self).watermark() < final(self).watermark(),
            final(self).uncompacted_bytes() == 0,
            final(self).locations().dom() == old(self).locations().dom(),
            forall|i: int|
                #![trigger old(self).index_keys()[i]]
                0 <= i < old(self).index_keys().len() ==> final(self).locations()[old(
                    self,
                ).index_keys()[i]] == (CommandPos {
                    gen: plan.gen_spec(),
                    pos: sum_lens(old(self).index_locs().take(i)) as u64,
                    len: old(self).index_locs()[i].len,
                }),
            r@ == old(self).gens(),
            forall|i: int| 0 <= i < r@.len() ==> r@[i] < plan.gen_spec(),
    {
        let ghost before = *self;
        let gen = plan.gen;
        let n = self.index.len();
        let mut off: u64 = 0;
        let ghost mut new_seg: Seq<u8> = Seq::empty();
        let ghost keys = before.index_keys();
        let ghost locs = before.index_locs();
        proof {
            lemma_sum_lens_prefix(locs, n as int);
            assert(locs.take(0) =~= Seq::<CommandPos>::empty());
            assert forall|g: u64| before.gens@.contains(g) implies g < gen by {
                let t = choose|t: int| 0 <= t < before.gens@.len() && before.gens@[t] == g;
                assert(before.gens@[t] <= before.gens@[before.gens@.len() - 1]);
            }
            LogCore::lemma_compacting_start(before, gen);
        }
        let mut i: usize = 0;
        while i < n
            invariant
                before.wf(),
                before.plan_matches(plan),
                gen == plan.gen,
                self.contents == before.contents,
                self.gens@ == before.gens@,
                n == before.index.entries@.len(),
                keys == before.index_keys(),
                locs == before.index_locs(),
                i <= n,
                forall|g: u64| before.gens@.contains(g) ==> g < gen,
                compacting(&self.index, before, gen, i as int, new_seg),
                new_seg == before.copied(locs.take(i as int)),
                off == new_seg.len(),
                off == sum_lens(locs.take(i as int)),
                sum_lens(locs) <= u64::MAX,
                self.index.live_len() == before.index.live_len(),
            decreases n - i,
        {
            let src = self.index.loc_at(i);
            proof {
                assert(src == locs[i as int]);
                lemma_sum_lens_prefix(locs, i + 1);
                assert(locs.take(i + 1).drop_last() =~= locs.take(i as int));
            }
            let dst = CommandPos { gen, pos: off, len: src.len };
            let ghost idx_before = self.index;
            self.index.set_loc(i, dst);
            proof {
                crate::index::lemma_sum_lens_update(idx_before.locs(), i as int, dst);
                assert(idx_before.locs()[i as int] == src);
                LogCore::lemma_compacting_step(
                    before,
                    gen,
                    i as int,
                    new_seg,
                    idx_before,
                    self.index,
                );
                assert(locs.take(i + 1).last() == src);
                new_seg = new_seg + before.record_at(src);
            }
            off = off + src.len;
            i = i + 1;
        }
        proof {
            assert(locs.take(n as int) =~= locs);
            LogCore::lemma_prefix_map_full(before);
        }
        let old_gens = self.generations();
        let mut gens: Vec<u64> = Vec::new();
        gens.push(gen);
        self.gens = gens;
        self.segs = Ghost(Map::empty().insert(gen, new_seg));
        self.writer_pos = off;
        self.uncompacted = 0;
        self.stale_gen = gen - 1;
        proof {
            LogCore::lemma_compacting_end(before, gen, new_seg, *self);
            assert forall|j: int| 0 <= j < n implies self.index@[#[trigger] keys[j]] == (CommandPos {
                gen,
                pos: sum_lens(locs.take(j)) as u64,
                len: locs[j].len,
            }) by {
                assert(self.index.entries@[j] == self.index.entries@[j]);
                assert(self.index.key_at(j) == keys[j]);
            }
            assert(before.stale_gen < before.gens@[0]);
            assert(before.gens@[0] <= before.gens@[before.gens@.len() - 1]);
            assert(self.image() =~= seq![new_seg]);
            assert(total_size(self.image().drop_last()) == 0);
            assert(before.index.locs() =~= locs);
        }
        old_gens
    }

    proof fn lemma_prefix_map_full(before: LogCore)
        requires
            before.wf(),
        ensures
            prefix_map(before.index_keys(), before@, before.index_keys().len() as int) == before@,
    {
        let keys = before.index_keys();
        let n = keys.len() as int;
        let m = before.contents@;
        lemma_prefix_map(keys, m, n);
        assert forall|k: Seq<char>| m.contains_key(k) implies #[trigger] prefix_map(
            keys,
            m,
            n,
        ).contains_key(k) by {
            assert(before.index@.contains_key(k));
            let j = choose|j: int| 0 <= j < n && before.index.key_at(j) == k;
            assert(keys[j] == k);
        }
        assert forall|k: Seq<char>| #[trigger] prefix_map(keys, m, n).contains_key(k) implies m.contains_key(k) by {
            let j = choose|j: int| 0 <= j < n && keys[j] == k;
            assert(before.index@.contains_key(before.index.key_at(j)));
        }
        assert(prefix_map(keys, m, n) =~= m);
    }

    proof fn lemma_compacting_start(before: LogCore, gen: u64)
        requires
            before.wf(),
            forall|g: u64| before.gens@.contains(g) ==> g < gen,
        ensures
            compacting(&before.index, before, gen, 0, Seq::empty()),
    {
        let gens2 = before.gens@.push(gen);
        let segs2 = before.segs@.insert(gen, Seq::empty());
        assert forall|k: Seq<char>| #[trigger] before.index@.contains_key(k) implies located(
            gens2,
            segs2,
            before.index@[k],
            k,
            before.contents@[k],
        ) by {
            let loc = before.index@[k];
            assert(located(before.gens@, before.segs@, loc, k, before.contents@[k]));
            let t = choose|t: int| 0 <= t < before.gens@.len() && before.gens@[t] == loc.gen;
            assert(gens2[t] == loc.gen);
        }
        assert(replay_bytes(Map::empty(), Seq::<u8>::empty()) == Some(
            Map::<Seq<char>, Seq<char>>::empty(),
        ));
    }

    proof fn lemma_compacting_step(
        before: LogCore,
        gen: u64,
        i: int,
        new_seg: Seq<u8>,
        idx: KeyIndex,
        idx2: KeyIndex,
    )
        requires
            before.wf(),
            forall|g: u64| before.gens@.contains(g) ==> g < gen,
            compacting(&idx, before, gen, i, new_seg),
            i < idx.entries@.len(),
            idx2.wf(),
            idx2@ == idx@.insert(
                idx.key_at(i),
                CommandPos { gen, pos: new_seg.len() as u64, len: idx.entries@[i].loc.len },
            ),
            idx2.entries@.len() == idx.entries@.len(),
            forall|j: int| 0 <= j < idx.entries@.len() ==> idx2.key_at(j) == idx.key_at(j),
            new_seg.len() + idx.entries@[i].loc.len <= u64::MAX,
            new_seg.len() == sum_lens(before.index_locs().take(i)),
        ensures
            compacting(
                &idx2,
                before,
                gen,
                i + 1,
                new_seg + before.record_at(before.index.entries@[i].loc),
            ),
    {
        let src = before.index.entries@[i].loc;
        let k = before.index.key_at(i);
        let v = before.contents@[k];
        let rec = before.record_at(src);
        let seg2 = new_seg + rec;
        let gens2 = before.gens@.push(gen);
        let segs1 = before.segs@.insert(gen, new_seg);
        let segs2 = before.segs@.insert(gen, seg2);
        let dst = CommandPos { gen, pos: new_seg.len() as u64, len: src.len };
        assert(before.index@.contains_key(k));
        assert(located(before.gens@, before.segs@, src, k, v));
        assert(src.gen != gen);
        assert(seg2.subrange(dst.pos as int, dst.pos + dst.len) =~= rec);
        assert(gens2[gens2.len() - 1] == gen);
        assert(located(gens2, segs2, dst, k, v));
        assert forall|j: int| 0 <= j < idx2.entries@.len() implies (#[trigger] idx2.entries@[j]).loc
            == (if j == i {
            dst
        } else {
            idx.entries@[j].loc
        }) by {
            assert(idx2@.contains_key(idx2.key_at(j)));
            assert(idx.entries@[j] == idx.entries@[j]);
            if j != i {
                assert(idx.key_at(j) != idx.key_at(i));
            }
        }
        assert forall|kk: Seq<char>| #[trigger] idx2@.contains_key(kk) implies located(
            gens2,
            segs2,
            idx2@[kk],
            kk,
            before.contents@[kk],
        ) by {
            if kk != k {
                let loc = idx@[kk];
                assert(located(gens2, segs1, loc, kk, before.contents@[kk]));
                if loc.gen == gen {
                    assert(seg2.subrange(loc.pos as int, loc.pos + loc.len) =~= new_seg.subrange(
                        loc.pos as int,
                        loc.pos + loc.len,
                    ));
                }
            }
        }
        assert(idx2@.dom() =~= idx@.dom());
        // replay of the new segment gains the copied record
        lemma_replay_concat(Map::empty(), new_seg, rec);
        lemma_parse_record_len(rec);
        lemma_replay_one(prefix_map(before.index_keys(), before.contents@, i), rec, RecordView::Put { key: k, val: v });
        assert(before.index_keys()[i] == k);
    }

    proof fn lemma_compacting_end(before: LogCore, gen: u64, new_seg: Seq<u8>, after: LogCore)
        requires
            before.wf(),
            forall|g: u64| before.gens@.contains(g) ==> g < gen,
            compacting(&after.index, before, gen, after.index.entries@.len() as int, new_seg),
            prefix_map(before.index_keys(), before.contents@, after.index.entries@.len() as int)
                == before.contents@,
            after.gens@ == seq![gen],
            after.segs@ == Map::<u64, Seq<u8>>::empty().insert(gen, new_seg),
            after.writer_pos == new_seg.len(),
            after.stale_gen == gen - 1,
            after.contents == before.contents,
            gen >= 1,
            after.index.live_len() <= new_seg.len(),
            after.uncompacted == 0,
        ensures
            after.wf(),
    {
        let n = after.index.entries@.len() as int;
        let gens2 = before.gens@.push(gen);
        let segs2 = before.segs@.insert(gen, new_seg);
        assert forall|k: Seq<char>| #[trigger] after.index@.contains_key(k) implies located(
            after.gens@,
            after.segs@,
            after.index@[k],
            k,
            after.contents@[k],
        ) by {
            assert(located(gens2, segs2, after.index@[k], k, after.contents@[k]));
            let j = choose|j: int| 0 <= j < n && after.index.key_at(j) == k;
            assert(after.index.entries@[j].loc.gen == gen);
            assert(after.gens@[0] == gen);
        }
        assert forall|g: u64| #[trigger] after.segs@.contains_key(g) <== after.gens@.contains(g) by {
            if after.gens@.contains(g) {
                assert(after.gens@[0] == g);
            }
        }
        assert(after.image() =~= seq![new_seg]);
        assert(after.image().drop_last() =~= Seq::<Seq<u8>>::empty());
        assert(after.image().last() == new_seg);
        assert(replay_segments(after.image().drop_last()) == Some(Map::<Seq<char>, Seq<char>>::empty()));
        assert(replay_bytes(Map::empty(), new_seg) == Some(after.contents@));
        assert(total_size(after.image()) == new_seg.len()) by {
            assert(total_size(after.image().drop_last()) == 0);
        }
    }
}

/// The state of the index while compaction runs: the first `i` keys point
/// into the new segment `gen`, the others where they pointed before, and
/// the new segment replays to the first `i` keys' values.
spec fn compacting(
    idx: &KeyIndex,
    before: LogCore,
    gen: u64,
    i: int,
    new_seg: Seq<u8>,
) -> bool {
    let gens2 = before.gens().push(gen);
    let segs2 = before.segments().insert(gen, new_seg);
    &&& idx.wf()
    &&& idx.entries@.len() == before.index_keys().len()
    &&& 0 <= i <= idx.entries@.len()
    &&& forall|j: int| 0 <= j < idx.entries@.len() ==> idx.key_at(j) == before.index_keys()[j]
    &&& idx@.dom() == before@.dom()
    &&& forall|j: int|
        #![trigger idx.entries@[j]]
        0 <= j < i ==> idx.entries@[j].loc == (CommandPos {
            gen,
            pos: sum_lens(before.index_locs().take(j)) as u64,
            len: before.index_locs()[j].len,
        })
    &&& forall|j: int|
        #![trigger idx.entries@[j]]
        i <= j < idx.entries@.len() ==> idx.entries@[j].loc == before.index_locs()[j]
    &&& forall|k: Seq<char>| #[trigger]
        idx@.contains_key(k) ==> located(gens2, segs2, idx@[k], k, before@[k])
    &&& replay_bytes(Map::empty(), new_seg) == Some(prefix_map(before.index_keys(), before@, i))
}

/// What reading a located record yields: the value of a `Set` record that
/// fills the bytes exactly; `UnexpectedCommandType` for a tombstone;
/// `JsonError` for bytes that are not exactly one record.
pub open spec fn record_value(b: Seq<u8>) -> Result<Seq<char>, KVErrorKind> {
    match parse_record(b) {
        Some((RecordView::Put { val, .. }, n)) => if n == b.len() {
            Ok(val)
        } else {
            Err(KVErrorKind::JsonError)
        },
        Some((RecordView::Remove { .. }, n)) => if n == b.len() {
            Err(KVErrorKind::UnexpectedCommandType)
        } else {
            Err(KVErrorKind::JsonError)
        },
        None => Err(KVErrorKind::JsonError),
    }
}

/// The value held by the bytes of a located record.
pub fn value_from_record(bytes: &[u8]) -> (r: Result<String, KVError>)
    ensures
        match record_value(bytes@) {
            Ok(v) => r matches Ok(s) && s@ == v,
            Err(kind) => r matches Err(e) && e.inner == kind,
        },
{
    assert(bytes@.skip(0) =~= bytes@);
    match decode_ops(bytes, 0) {
        Some((Ops::Put { val, .. }, end)) => if end == bytes.len() {
            Ok(val)
        } else {
            Err(KVError::new(KVErrorKind::JsonError))
        },
        Some((Ops::Rm { .. }, end)) => if end == bytes.len() {
            Err(KVError::new(KVErrorKind::UnexpectedCommandType))
        } else {
            Err(KVError::new(KVErrorKind::JsonError))
        },
        None => Err(KVError::new(KVErrorKind::JsonError)),
    }
}

/// The generations among `cached` at or below the watermark: the open
/// segments a reader drops before it reads.
pub fn stale_handles(cached: &Vec<u64>, watermark: u64) -> (r: Vec<u64>)
    ensures
        forall|g: u64| r@.contains(g) <==> (cached@.contains(g) && g <= watermark),
{
    let mut r: Vec<u64> = Vec::new();
    let mut i: usize = 0;
    while i < cached.len()
        invariant
            i <= cached@.len(),
            forall|g: u64|
                r@.contains(g) <==> (exists|j: int| 0 <= j < i && cached@[j] == g) && g <= watermark,
        decreases cached@.len() - i,
    {
        let g = cached[i];
        let ghost before = r@;
        if g <= watermark {
            r.push(g);
        }
        proof {
            assert forall|x: u64|
                r@.contains(x) <==> (exists|j: int| 0 <= j < i + 1 && cached@[j] == x) && x
                    <= watermark by {
                if r@.contains(x) && !before.contains(x) {
                    assert(x == g);
                    assert(cached@[i as int] == x);
                }
                if before.contains(x) {
                    let t = choose|t: int| 0 <= t < before.len() && before[t] == x;
                    assert(r@[t] == x);
                }
                if (exists|j: int| 0 <= j < i + 1 && cached@[j] == x) && x <= watermark {
                    let j = choose|j: int| 0 <= j < i + 1 && cached@[j] == x;
                    if j == i {
                        assert(r@[r@.len() - 1] == x);
                    } else {
                        assert(before.contains(x));
                        let t = choose|t: int| 0 <= t < before.len() && before[t] == x;
                        assert(r@[t] == x);
                    }
                }
            }
        }
        i = i + 1;
    }
    proof {
        assert forall|g: u64| r@.contains(g) <==> (cached@.contains(g) && g <= watermark) by {
            if cached@.contains(g) && g <= watermark {
                let j = choose|j: int| 0 <= j < cached@.len() && cached@[j] == g;
                assert(exists|j: int| 0 <= j < i && cached@[j] == g);
            }
        }
    }
    r
}

/// Whatever sequence of operations led to a state, replaying its segments
/// from disk, as opening the store does, yields the same key-value map.
pub proof fn law_reopen_sees_same_map(c: &LogCore, segments: Seq<(u64, Vec<u8>)>)
    requires
        c.wf(),
        input_image(segments) == c.image(),
    ensures
        replay_segments(input_image(segments)) == Some(c@),
{
    c.lemma_wf_replay();
}

/// A store opened on no segments holds no key.
pub proof fn law_fresh_store_is_empty(c: &LogCore, segments: Seq<(u64, Vec<u8>)>)
    requires
        segments.len() == 0,
        replay_segments(input_image(segments)) == Some(c@),
    ensures
        c@ == Map::<Seq<char>, Seq<char>>::empty(),
{
    assert(input_image(segments) =~= Seq::<Seq<u8>>::empty());
}

/// Compaction, once due, leaves the segments strictly smaller in total than
/// they were, and the key-value map as it was.
pub proof fn law_compaction_shrinks(before: &LogCore, after: &LogCore)
    requires
        before.wf(),
        before.uncompacted_bytes() > COMPACTION_THRESHOLD,
        after@ == before@,
        total_size(after.image()) == before.live_bytes(),
    ensures
        total_size(after.image()) < total_size(before.image()),
        after@ == before@,
{
    before.lemma_sizes();
}

/// After `set(k, v)`, `get(k)` reads `v`: the key is live with value `v`,
/// and the bytes at its location read back as `v`.
pub proof fn law_set_then_get(before: &LogCore, after: &LogCore, k: Seq<char>, v: Seq<char>)
    requires
        after.wf(),
        after@ == before@.insert(k, v),
    ensures
        after@.contains_key(k),
        after@[k] == v,
        forall|loc: CommandPos|
            after.holds(loc, k, after@[k]) ==> record_value(after.record_at(loc)) == Ok::<
                Seq<char>,
                KVErrorKind,
            >(v),
{
}

/// After `set(k, v1)` then `set(k, v2)`, `get(k)` reads `v2`.
pub proof fn law_overwrite_then_get(
    first: &LogCore,
    second: &LogCore,
    third: &LogCore,
    k: Seq<char>,
    v1: Seq<char>,
    v2: Seq<char>,
)
    requires
        third.wf(),
        second@ == first@.insert(k, v1),
        third@ == second@.insert(k, v2),
    ensures
        third@.contains_key(k),
        third@[k] == v2,
        forall|loc: CommandPos|
            third.holds(loc, k, third@[k]) ==> record_value(third.record_at(loc)) == Ok::<
                Seq<char>,
                KVErrorKind,
            >(v2),
{
}

/// After `set(k, v)` then `remove(k)`, `get(k)` finds nothing.
pub proof fn law_set_remove_then_get(
    first: &LogCore,
    second: &LogCore,
    third: &LogCore,
    k: Seq<char>,
    v: Seq<char>,
)
    requires
        second@ == first@.insert(k, v),
        third@ == second@.remove(k),
    ensures
        !third@.contains_key(k),
{
}

/// Replays the records of segment `gen` into the index, on top of the map
/// `m0`; `None` where its bytes are not a sequence of whole records.
fn replay_segment(
    index: &mut KeyIndex,
    uncompacted: &mut u64,
    gen: u64,
    bytes: &Vec<u8>,
    Ghost(gens): Ghost<Seq<u64>>,
    Ghost(segs): Ghost<Map<u64, Seq<u8>>>,
    Ghost(m0): Ghost<Map<Seq<char>, Seq<char>>>,
    Ghost(base): Ghost<int>,
) -> (r: Option<Ghost<Map<Seq<char>, Seq<char>>>>)
    requires
        old(index).wf(),
        old(index).live_len() + *old(uncompacted) <= base,
        gens.len() > 0,
        gens.last() == gen,
        segs.contains_key(gen),
        segs[gen] == bytes@,
        bytes@.len() <= u64::MAX,
        old(index)@.dom() == m0.dom(),
        forall|k: Seq<char>| #[trigger]
            old(index)@.contains_key(k) ==> located(gens, segs, old(index)@[k], k, m0[k]),
    ensures
        match r {
            Some(m) => {
                &&& final(index).wf()
                &&& final(index)@.dom() == m@.dom()
                &&& forall|k: Seq<char>| #[trigger]
                    final(index)@.contains_key(k) ==> located(gens, segs, final(index)@[k], k, m@[k])
                &&& replay_bytes(m0, bytes@) == Some(m@)
                &&& final(index).live_len() + *final(uncompacted) <= base + bytes@.len()
                &&& replay_index(old(index)@, *old(uncompacted), gen, bytes@, 0) == Some(
                    (final(index)@, *final(uncompacted)),
                )
            },
            None => replay_bytes(m0, bytes@) is None,
        },
{
    let ghost mut contents = m0;
    let ghost idx0 = index@;
    let ghost unc0 = *uncompacted;
    let mut pos: usize = 0;
    assert(bytes@.skip(0) =~= bytes@);
    while pos < bytes.len()
        invariant
            pos <= bytes@.len(),
            bytes@.len() <= u64::MAX,
            gens.len() > 0,
            gens.last() == gen,
            segs.contains_key(gen),
            segs[gen] == bytes@,
            index.wf(),
            index@.dom() == contents.dom(),
            forall|k: Seq<char>| #[trigger]
                index@.contains_key(k) ==> located(gens, segs, index@[k], k, contents[k]),
            replay_bytes(m0, bytes@) == replay_bytes(contents, bytes@.skip(pos as int)),
            index.live_len() + *uncompacted <= base + pos,
            replay_index(idx0, unc0, gen, bytes@, 0) == replay_index(
                index@,
                *uncompacted,
                gen,
                bytes@.skip(pos as int),
                pos as int,
            ),
        decreases bytes@.len() - pos,
    {
        match decode_ops(bytes.as_slice(), pos) {
            None => {
                return None;
            },
            Some((op, end)) => {
                let ghost b = bytes@.skip(pos as int);
                let ghost c = bytes@.subrange(pos as int, end as int);
                proof {
                    lemma_parse_record_len(b);
                    assert(c.subrange(0, end - pos) =~= c);
                    assert(b.subrange(0, end - pos) =~= c);
                    lemma_parse_record_local(b, c);
                    assert(b.skip(end - pos) =~= bytes@.skip(end as int));
                    assert(gens[gens.len() - 1] == gen);
                }
                let len = (end - pos) as u64;
                match op {
                    Ops::Put { key, val } => {
                        let loc = CommandPos { gen, pos: pos as u64, len };
                        let ghost k = key@;
                        let ghost v = val@;
                        let displaced = index.insert(key, loc);
                        if let Some(prev) = displaced {
                            *uncompacted = uncompacted.saturating_add(prev.len);
                        }
                        proof {
                            contents = contents.insert(k, v);
                            assert(index@.dom() =~= contents.dom());
                            assert(located(gens, segs, loc, k, v));
                        }
                    },
                    Ops::Rm { key } => {
                        let ghost k = key@;
                        let displaced = index.remove(&key);
                        if let Some(prev) = displaced {
                            *uncompacted = uncompacted.saturating_add(prev.len);
                        }
                        *uncompacted = uncompacted.saturating_add(len);
                        proof {
                            contents = contents.remove(k);
                            assert(index@.dom() =~= contents.dom());
                        }
                    },
                }
                pos = end;
            },
        }
    }
    assert(bytes@.skip(pos as int) =~= Seq::<u8>::empty());
    assert(replay_index(index@, *uncompacted, gen, bytes@.skip(pos as int), pos as int) == Some(
        (index@, *uncompacted),
    ));
    Some(Ghost(contents))
}

/// Replays the records of segment `gen` (the bytes `b`, which start at
/// offset `at` of the segment) on an index and a stale-byte count, as
/// opening the store does. A `Set` points its key at its own bytes, and the
/// record it displaces becomes stale; a remove drops its key, and both the
/// record it displaces and the tombstone itself become stale. `None` where
/// the bytes are not a sequence of whole records.
pub open spec fn replay_index(
    locs: Map<Seq<char>, CommandPos>,
    unc: u64,
    gen: u64,
    b: Seq<u8>,
    at: int,
) -> Option<(Map<Seq<char>, CommandPos>, u64)>
    decreases b.len(),
{
    if b.len() == 0 {
        Some((locs, unc))
    } else {
        match parse_record(b) {
            Some((r, n)) => if 0 < n <= b.len() {
                match r {
                    RecordView::Put { key, .. } => replay_index(
                        locs.insert(key, CommandPos { gen, pos: at as u64, len: n as u64 }),
                        after_displacing(unc, lookup(locs, key)),
                        gen,
                        b.skip(n),
                        at + n,
                    ),
                    RecordView::Remove { key } => replay_index(
                        locs.remove(key),
                        sat_add(after_displacing(unc, lookup(locs, key)), n as u64),
                        gen,
                        b.skip(n),
                        at + n,
                    ),
                }
            } else {
                None
            },
            None => None,
        }
    }
}

/// The index and the stale-byte count that opening the store on `segments`
/// rebuilds: every segment replayed, in the order given, from an empty index
/// and a count of zero.
pub open spec fn recovered_index(segments: Seq<(u64, Vec<u8>)>) -> Option<
    (Map<Seq<char>, CommandPos>, u64),
>
    decreases segments.len(),
{
    if segments.len() == 0 {
        Some((Map::empty(), 0))
    } else {
        match recovered_index(segments.drop_last()) {
            Some((m, u)) => replay_index(m, u, segments.last().0, segments.last().1@, 0),
            None => None,
        }
    }
}

/// `loc` names a segment among `gens` and covers, within its bytes, a record
/// that sets `key` to `val`.
pub open spec fn located(
    gens: Seq<u64>,
    segs: Map<u64, Seq<u8>>,
    loc: CommandPos,
    key: Seq<char>,
    val: Seq<char>,
) -> bool {
    &&& gens.contains(loc.gen)
    &&& loc.pos + loc.len <= segs[loc.gen].len()
    &&& parse_record(segs[loc.gen].subrange(loc.pos as int, loc.pos + loc.len)) == Some(
        (RecordView::Put { key, val }, loc.len as int),
    )
}

/// Once a prefix of the segments fails to replay, the whole fails.
proof fn lemma_replay_prefix_none(img: Seq<Seq<u8>>, s: int)
    requires
        0 <= s <= img.len(),
        replay_segments(img.take(s)) is None,
    ensures
        replay_segments(img) is None,
    decreases img.len() - s,
{
    if s < img.len() {
        assert(img.take(s + 1).drop_last() =~= img.take(s));
        lemma_replay_prefix_none(img, s + 1);
    } else {
        assert(img.take(s) =~= img);
    }
}

} // verus!
