//! IP defragmentation: fragments are buffered per datagram until they tile
//! the datagram from offset 0 to a last fragment without "more fragments".

use vstd::prelude::*;
use crate::bytes::copy_bytes;
use crate::tuple::{Duration, IpAddr};

verus! {

/// Default lifetime of an incomplete datagram, in seconds.
pub const DEFRAG_TIMEOUT_SECS: u64 = 30;

/// What identifies the fragments of one datagram.
#[derive(Clone, Copy, Debug, PartialEq, Eq, Structural)]
pub struct FragKey {
    pub id: u32,
    pub src: IpAddr,
    pub dst: IpAddr,
    pub proto: u8,
}

/// One received fragment: its byte offset in the datagram, its bytes, and
/// its "more fragments" flag.
pub struct FragRecord {
    pub offset: usize,
    pub data: Vec<u8>,
    pub more_fragments: bool,
}

pub open spec fn frag_end(f: FragRecord) -> int {
    f.offset + f.data@.len()
}

/// Fragments in increasing offset order, none overlapping another.
pub open spec fn sorted_disjoint(q: Seq<FragRecord>) -> bool {
    forall|i: int, j: int| 0 <= i < j < q.len() ==> frag_end(#[trigger] q[i]) <= (#[trigger] q[j]).offset
}

/// No fragment ends beyond the largest buffer size.
pub open spec fn frags_bounded(q: Seq<FragRecord>) -> bool {
    forall|i: int| 0 <= i < q.len() ==> frag_end(#[trigger] q[i]) <= usize::MAX
}

/// The fragments, in order, cover `[0, n)` end to end, and the last one says
/// no more fragments follow.
pub open spec fn tiles(q: Seq<FragRecord>, n: int) -> bool {
    &&& q.len() > 0
    &&& q[0].offset == 0
    &&& forall|i: int| 0 <= i < q.len() - 1 ==> #[trigger] frag_end(q[i]) == q[i + 1].offset
    &&& frag_end(q.last()) == n
    &&& !q.last().more_fragments
}

/// The fragments, in order, form a complete datagram.
pub open spec fn complete(q: Seq<FragRecord>) -> bool {
    q.len() > 0 && tiles(q, frag_end(q.last()))
}

/// `out` holds every fragment's bytes at the fragment's offset, and ends
/// where the last fragment ends.
pub open spec fn assembled(q: Seq<FragRecord>, out: Seq<u8>) -> bool {
    &&& q.len() > 0
    &&& out.len() == frag_end(q.last())
    &&& forall|i: int, b: int|
        0 <= i < q.len() && 0 <= b < q[i].data@.len() ==> out[q[i].offset + b] == (
        #[trigger] q[i].data@[b])
}

/// Two fragments share a byte position.
pub open spec fn overlaps(f: FragRecord, g: FragRecord) -> bool {
    f.offset < frag_end(g) && g.offset < frag_end(f)
}

pub enum Fragment {
    /// The packet is not a fragment: use it as it is
    NoFrag,
    /// The datagram is complete: these are its bytes
    Complete(Vec<u8>),
    /// More fragments are needed
    Incomplete,
    /// The fragment conflicts with the buffered ones; the datagram is dropped
    Error,
}

/// The buffered fragments of one datagram, with the time they started.
pub struct FragBuffer {
    pub key: FragKey,
    pub frags: Vec<FragRecord>,
    /// When the first fragment arrived
    pub created: Duration,
}

pub struct IPDefragEngine {
    pub buffers: Vec<FragBuffer>,
    pub timeout: Duration,
}

/// Insert `g` into the sorted fragments `q`, with which it does not overlap.
fn insert_frag(q: &mut Vec<FragRecord>, g: FragRecord)
    requires
        sorted_disjoint(old(q)@),
        frags_bounded(old(q)@),
        frag_end(g) <= usize::MAX,
        forall|k: int| 0 <= k < old(q)@.len() ==> !overlaps(#[trigger] old(q)@[k], g),
    ensures
        sorted_disjoint(final(q)@),
        frags_bounded(final(q)@),
        exists|i: int| 0 <= i <= old(q)@.len() && final(q)@ == old(q)@.insert(i, g),
{
    let mut i: usize = 0;
    let n = q.len();
    let mut found = false;
    while i < n && !found
        invariant
            n == q@.len(),
            q@ == old(q)@,
            frags_bounded(q@),
            0 <= i <= n,
            forall|k: int| 0 <= k < i ==> frag_end(#[trigger] q@[k]) <= g.offset,
            found ==> i < n && frag_end(q@[i as int]) > g.offset,
        decreases n - i, (if found { 0int } else { 1int }),
    {
        if q[i].offset + q[i].data.len() > g.offset {
            found = true;
        } else {
            i = i + 1;
        }
    }
    let ghost pos = i as int;
    let ghost q0 = q@;
    q.insert(i, g);
    proof {
        assert forall|a: int, b: int| 0 <= a < b < q@.len() implies frag_end(#[trigger] q@[a])
            <= (#[trigger] q@[b]).offset by {
            if a < pos && b == pos {
            } else if a == pos {
                assert(!overlaps(q0[pos], g));
                if b > pos + 1 {
                    assert(frag_end(q0[pos]) <= q0[b - 1].offset);
                }
            } else if a < pos && b > pos {
                assert(frag_end(q0[a]) <= q0[b - 1].offset);
            } else if a > pos {
                assert(frag_end(q0[a - 1]) <= q0[b - 1].offset);
            }
        }
        assert(q@ == q0.insert(pos, g));
        assert forall|k: int| 0 <= k < q@.len() implies frag_end(#[trigger] q@[k]) <= usize::MAX by {
            if k < pos {
                assert(q@[k] == q0[k]);
            } else if k > pos {
                assert(q@[k] == q0[k - 1]);
            }
        }
    }
}

/// Whether the sorted fragments form a complete datagram.
fn is_complete(q: &Vec<FragRecord>) -> (r: bool)
    requires
        sorted_disjoint(q@),
        frags_bounded(q@),
    ensures
        r == complete(q@),
{
    let n = q.len();
    if n == 0 || q[0].offset != 0 || q[n - 1].more_fragments {
        return false;
    }
    let mut i: usize = 0;
    while i + 1 < n
        invariant
            n == q@.len(),
            frags_bounded(q@),
            n > 0,
            0 <= i < n,
            forall|k: int| 0 <= k < i ==> #[trigger] frag_end(q@[k]) == q@[k + 1].offset,
        decreases n - i,
    {
        if q[i].offset + q[i].data.len() != q[i + 1].offset {
            return false;
        }
        i = i + 1;
    }
    true
}

/// Append the bytes of `data` to `out`.
fn append_bytes(out: &mut Vec<u8>, data: &Vec<u8>)
    ensures
        final(out)@ == old(out)@ + data@,
{
    let mut b: usize = 0;
    while b < data.len()
        invariant
            0 <= b <= data@.len(),
            out@ == old(out)@ + data@.subrange(0, b as int),
        decreases data@.len() - b,
    {
        out.push(data[b]);
        b = b + 1;
        assert(out@ =~= old(out)@ + data@.subrange(0, b as int));
    }
    assert(data@.subrange(0, data@.len() as int) =~= data@);
}

/// The bytes of a complete datagram, each fragment at its offset.
fn reassemble(q: &Vec<FragRecord>) -> (r: Vec<u8>)
    requires
        complete(q@),
        sorted_disjoint(q@),
    ensures
        assembled(q@, r@),
{
    let mut out: Vec<u8> = Vec::new();
    let n = q.len();
    let mut i: usize = 0;
    while i < n
        invariant
            n == q@.len(),
            complete(q@),
            sorted_disjoint(q@),
            0 <= i <= n,
            i < n ==> out@.len() == q@[i as int].offset,
            i == n ==> out@.len() == frag_end(q@.last()),
            forall|j: int, b: int|
                0 <= j < i && 0 <= b < q@[j].data@.len() ==> out@[q@[j].offset + b] == (
                #[trigger] q@[j].data@[b]),
        decreases n - i,
    {
        let ghost before = out@;
        append_bytes(&mut out, &q[i].data);
        proof {
            assert forall|j: int, b: int|
                0 <= j <= i && 0 <= b < q@[j].data@.len() implies out@[q@[j].offset + b] == (
                #[trigger] q@[j].data@[b]) by {
                if j < i {
                    assert(frag_end(q@[j]) <= q@[i as int].offset);
                }
            }
            if i + 1 < n {
                assert(frag_end(q@[i as int]) == q@[i + 1].offset);
            }
        }
        i = i + 1;
    }
    out
}

/// `f` is the record of a fragment with these fields.
pub open spec fn record_of(f: FragRecord, offset: usize, data: Seq<u8>, more_fragments: bool) -> bool {
    f.offset == offset && f.data@ == data && f.more_fragments == more_fragments
}

impl IPDefragEngine {
    /// Each buffer is sorted and bounded, and no two share a key.
    pub open spec fn wf(&self) -> bool {
        &&& forall|i: int|
            0 <= i < self.buffers@.len() ==> sorted_disjoint((#[trigger] self.buffers@[i]).frags@)
                && frags_bounded(self.buffers@[i].frags@)
        &&& forall|i: int, j: int|
            0 <= i < self.buffers@.len() && 0 <= j < self.buffers@.len() && i != j ==> (
            #[trigger] self.buffers@[i]).key != (#[trigger] self.buffers@[j]).key
    }

    pub open spec fn has_buffer(&self, key: FragKey) -> bool {
        exists|i: int| 0 <= i < self.buffers@.len() && (#[trigger] self.buffers@[i]).key == key
    }

    /// The fragments waiting for `key` at time `now`: none if there is no
    /// buffer for it, or if its buffer has outlived the timeout.
    pub open spec fn pending(&self, key: FragKey, now: Duration) -> Seq<FragRecord> {
        if self.has_buffer(key) {
            let b = self.buffers@[choose|i: int|
                0 <= i < self.buffers@.len() && (#[trigger] self.buffers@[i]).key == key];
            if now.total_micros() > b.created.total_micros() + self.timeout.total_micros() {
                Seq::empty()
            } else {
                b.frags@
            }
        } else {
            Seq::empty()
        }
    }

    pub fn new() -> (r: IPDefragEngine)
        ensures
            r.wf(),
            r.buffers@.len() == 0,
            r.timeout == (Duration { secs: DEFRAG_TIMEOUT_SECS, micros: 0 }),
    {
        IPDefragEngine { buffers: Vec::new(), timeout: Duration::new(DEFRAG_TIMEOUT_SECS, 0) }
    }

    proof fn lemma_choose_index(&self, key: FragKey, i: int)
        requires
            self.wf(),
            0 <= i < self.buffers@.len(),
            self.buffers@[i].key == key,
        ensures
            self.has_buffer(key),
            (choose|j: int| 0 <= j < self.buffers@.len() && (#[trigger] self.buffers@[j]).key == key)
                == i,
    {
        let j = choose|j: int| 0 <= j < self.buffers@.len() && (#[trigger] self.buffers@[j]).key == key;
        if j != i {
            assert(self.buffers@[i].key != self.buffers@[j].key);
        }
    }

    fn find(&self, key: &FragKey) -> (r: Option<usize>)
        requires
            self.wf(),
        ensures
            r matches Some(i) ==> i < self.buffers@.len() && self.buffers@[i as int].key == *key,
            r is None ==> !self.has_buffer(*key),
    {
        let mut i: usize = 0;
        while i < self.buffers.len()
            invariant
                0 <= i <= self.buffers@.len(),
                forall|k: int| 0 <= k < i ==> (#[trigger] self.buffers@[k]).key != *key,
            decreases self.buffers@.len() - i,
        {
            if self.buffers[i].key == *key {
                return Some(i);
            }
            i = i + 1;
        }
        None
    }

    /// Drop the buffer at `idx`.
    fn remove_buffer(&mut self, idx: usize)
        requires
            old(self).wf(),
            idx < old(self).buffers@.len(),
        ensures
            final(self).wf(),
            final(self).timeout == old(self).timeout,
            final(self).buffers@ == old(self).buffers@.remove(idx as int),
            !final(self).has_buffer(old(self).buffers@[idx as int].key),
    {
        let ghost key = self.buffers@[idx as int].key;
        self.buffers.remove(idx);
        proof {
            assert forall|i: int, j: int|
                0 <= i < self.buffers@.len() && 0 <= j < self.buffers@.len() && i != j implies (
                #[trigger] self.buffers@[i]).key != (#[trigger] self.buffers@[j]).key by {
                let oi = if i < idx { i } else { i + 1 };
                let oj = if j < idx { j } else { j + 1 };
                assert(self.buffers@[i] == old(self).buffers@[oi]);
                assert(self.buffers@[j] == old(self).buffers@[oj]);
            }
            assert forall|i: int| 0 <= i < self.buffers@.len() implies sorted_disjoint(
                (#[trigger] self.buffers@[i]).frags@,
            ) && frags_bounded(self.buffers@[i].frags@) by {
                let oi = if i < idx { i } else { i + 1 };
                assert(self.buffers@[i] == old(self).buffers@[oi]);
            }
            if self.has_buffer(key) {
                let i = choose|i: int| 0 <= i < self.buffers@.len() && (#[trigger] self.buffers@[i]).key == key;
                let oi = if i < idx { i } else { i + 1 };
                assert(self.buffers@[i] == old(self).buffers@[oi]);
                assert(old(self).buffers@[oi].key != old(self).buffers@[idx as int].key);
            }
        }
    }

    /// What feeding one fragment does (see `update`): `old` and `new` are the
    /// engine before and after, `r` the result.
    pub open spec fn update_spec(
        old: IPDefragEngine,
        new: IPDefragEngine,
        key: FragKey,
        offset: usize,
        more_fragments: bool,
        payload: Seq<u8>,
        now: Duration,
        r: Fragment,
    ) -> bool {
        &&& new.wf()
        &&& new.timeout == old.timeout
        &&& offset == 0 && !more_fragments ==> r is NoFrag && new.buffers@ == old.buffers@
        &&& !(offset == 0 && !more_fragments) && offset + payload.len() > usize::MAX ==> r is Error
            && new.buffers@ == old.buffers@
        &&& !(offset == 0 && !more_fragments) && offset + payload.len() <= usize::MAX ==> {
            let q = old.pending(key, now);
            &&& (exists|k: int|
                0 <= k < q.len() && #[trigger] overlaps_range(q[k], offset as int, payload.len() as int))
                ==> r is Error && !new.has_buffer(key)
            &&& !(exists|k: int|
                0 <= k < q.len() && #[trigger] overlaps_range(q[k], offset as int, payload.len() as int))
                ==> exists|f: FragRecord, i: int|
                #![trigger record_of(f, offset, payload, more_fragments), q.insert(i, f)]
                record_of(f, offset, payload, more_fragments) && 0 <= i <= q.len() && sorted_disjoint(
                    q.insert(i, f),
                ) && (complete(q.insert(i, f)) ==> (r matches Fragment::Complete(v) && assembled(
                    q.insert(i, f),
                    v@,
                )) && !new.has_buffer(key)) && (!complete(q.insert(i, f)) ==> r is Incomplete
                    && new.pending(key, now) == q.insert(i, f))
        }
    }

    /// Replacing the fragments of the buffer at `i` by sorted, bounded ones
    /// keeps the engine well formed.
    proof fn lemma_replace_keeps(&self, before: Seq<FragBuffer>, i: int)
        requires
            0 <= i < before.len(),
            self.buffers@.len() == before.len(),
            forall|k: int| 0 <= k < before.len() && k != i ==> self.buffers@[k] == before[k],
            self.buffers@[i].key == before[i].key,
            sorted_disjoint(self.buffers@[i].frags@),
            frags_bounded(self.buffers@[i].frags@),
            forall|k: int|
                0 <= k < before.len() ==> sorted_disjoint((#[trigger] before[k]).frags@)
                    && frags_bounded(before[k].frags@),
            forall|a: int, b: int|
                0 <= a < before.len() && 0 <= b < before.len() && a != b ==> (#[trigger] before[a]).key
                    != (#[trigger] before[b]).key,
        ensures
            self.wf(),
    {
        assert forall|a: int, b: int|
            0 <= a < self.buffers@.len() && 0 <= b < self.buffers@.len() && a != b implies (
            #[trigger] self.buffers@[a]).key != (#[trigger] self.buffers@[b]).key by {
            assert(before[a].key != before[b].key);
        }
        assert forall|k: int| 0 <= k < self.buffers@.len() implies sorted_disjoint(
            (#[trigger] self.buffers@[k]).frags@,
        ) && frags_bounded(self.buffers@[k].frags@) by {
            if k != i {
                assert(self.buffers@[k] == before[k]);
            }
        }
    }

    /// Feed one fragment: `offset` is its byte offset in the datagram, `payload`
    /// its bytes. A packet at offset 0 without "more fragments" is no
    /// fragment and passes through. Otherwise the fragment joins the ones
    /// waiting for `key` (a buffer older than the timeout is dropped first):
    /// one that overlaps them drops the datagram with `Error`; once they tile
    /// the datagram, its bytes are returned and the buffer is dropped.
    pub fn update(
        &mut self,
        key: FragKey,
        offset: usize,
        more_fragments: bool,
        payload: &[u8],
        now: Duration,
    ) -> (r: Fragment)
        requires
            old(self).wf(),
        ensures
            IPDefragEngine::update_spec(*old(self), *final(self), key, offset, more_fragments, payload@, now, r),
    {
        if offset == 0 && !more_fragments {
            return Fragment::NoFrag;
        }
        if payload.len() > usize::MAX - offset {
            return Fragment::Error;
        }
        let mut idx_opt = self.find(&key);
        if let Some(i) = idx_opt {
            proof {
                self.lemma_choose_index(key, i as int);
            }
            if now.exceeds(&self.buffers[i].created, &self.timeout) {
                self.remove_buffer(i);
                idx_opt = None;
            }
        }
        let g = FragRecord { offset, data: copy_bytes(payload), more_fragments };
        let ghost gg = g;
        let ghost q = old(self).pending(key, now);
        match idx_opt {
            None => {
                assert(q =~= Seq::<FragRecord>::empty());
                let mut frags: Vec<FragRecord> = Vec::new();
                frags.push(g);
                assert(frags@ =~= q.insert(0, gg));
                proof {
                    assert(record_of(gg, offset, payload@, more_fragments));
                    assert(q.insert(0, gg) == frags@);
                    assert(sorted_disjoint(frags@));
                    assert(frags_bounded(frags@));
                }
                if is_complete(&frags) {
                    let v = reassemble(&frags);
                    return Fragment::Complete(v);
                }
                let ghost before = self.buffers@;
                self.buffers.push(FragBuffer { key, frags, created: now });
                proof {
                    assert forall|a: int, b: int|
                        0 <= a < self.buffers@.len() && 0 <= b < self.buffers@.len() && a != b implies (
                        #[trigger] self.buffers@[a]).key != (#[trigger] self.buffers@[b]).key by {
                        if a == before.len() {
                            assert(before[b].key != key);
                        } else if b == before.len() {
                            assert(before[a].key != key);
                        }
                    }
                    assert forall|k: int| 0 <= k < self.buffers@.len() implies sorted_disjoint(
                        (#[trigger] self.buffers@[k]).frags@,
                    ) && frags_bounded(self.buffers@[k].frags@) by {
                        if k < before.len() {
                            assert(self.buffers@[k] == before[k]);
                        }
                    }
                    self.lemma_choose_index(key, before.len() as int);
                    assert(self.pending(key, now) == q.insert(0, gg));
                }
                Fragment::Incomplete
            },
            Some(i) => {
                assert(q == self.buffers@[i as int].frags@);
                let n = self.buffers[i].frags.len();
                let mut k: usize = 0;
                while k < n
                    invariant
                        self.wf(),
                        i < self.buffers@.len(),
                        n == self.buffers@[i as int].frags@.len(),
                        q == self.buffers@[i as int].frags@,
                        0 <= k <= n,
                        forall|j: int| 0 <= j < k ==> !#[trigger] overlaps_range(q[j], offset as int, payload@.len() as int),
                        self.buffers@[i as int].key == key,
                        frag_end(gg) <= usize::MAX,
                        self.timeout == old(self).timeout,
                        offset + payload@.len() <= usize::MAX,
                        record_of(gg, offset, payload@, more_fragments),
                        !(offset == 0 && !more_fragments),
                        q == old(self).pending(key, now),
                        !(now.total_micros() > self.buffers@[i as int].created.total_micros()
                            + self.timeout.total_micros()),
                    decreases n - k,
                {
                    let f = &self.buffers[i].frags[k];
                    assert(frag_end(*f) <= usize::MAX);
                    if f.offset < offset + payload.len() && offset < f.offset + f.data.len() {
                        assert(overlaps_range(q[k as int], offset as int, payload@.len() as int));
                        self.remove_buffer(i);
                        return Fragment::Error;
                    }
                    k = k + 1;
                }
                let ghost before = self.buffers@;
                assert forall|j: int| 0 <= j < q.len() implies !overlaps(#[trigger] q[j], gg) by {
                    assert(!overlaps_range(q[j], offset as int, payload@.len() as int));
                }
                insert_frag(&mut self.buffers[i].frags, g);
                let ghost q2 = self.buffers@[i as int].frags@;
                let ghost pos = choose|p: int| 0 <= p <= q.len() && q2 == q.insert(p, gg);
                proof {
                    self.lemma_replace_keeps(before, i as int);
                    assert(record_of(gg, offset, payload@, more_fragments));
                    assert(q.insert(pos, gg) == q2);
                }
                if is_complete(&self.buffers[i].frags) {
                    let v = reassemble(&self.buffers[i].frags);
                    self.remove_buffer(i);
                    return Fragment::Complete(v);
                }
                proof {
                    self.lemma_choose_index(key, i as int);
                    assert(self.pending(key, now) == q2);
                }
                Fragment::Incomplete
            },
        }
    }
}

/// Two byte ranges share a position: the fragment `f` and `[offset, offset + len)`.
pub open spec fn overlaps_range(f: FragRecord, offset: int, len: int) -> bool {
    f.offset < offset + len && offset < frag_end(f)
}

/// In fragments that tile a datagram, every byte position below the end of
/// fragment `i` lies in fragment `i` or one before it.
proof fn lemma_tiles_cover(q: Seq<FragRecord>, n: int, i: int, x: int) -> (j: int)
    requires
        tiles(q, n),
        0 <= i < q.len(),
        0 <= x < frag_end(q[i]),
    ensures
        0 <= j <= i,
        q[j].offset <= x < frag_end(q[j]),
    decreases i,
{
    if x >= q[i].offset {
        i
    } else {
        assert(frag_end(q[i - 1]) == q[i].offset);
        lemma_tiles_cover(q, n, i - 1, x)
    }
}

/// One byte of a fragment that carries the datagram's bytes.
proof fn lemma_fragment_byte(f: FragRecord, orig: Seq<u8>, out: Seq<u8>, x: int)
    requires
        frag_end(f) <= orig.len(),
        f.data@ == orig.subrange(f.offset as int, frag_end(f)),
        f.offset <= x < frag_end(f),
        out[x] == f.data@[x - f.offset],
    ensures
        out[x] == orig[x],
{
}

/// Defragmentation is correct: when fragments tile `[0, N)` with a last
/// fragment that has no "more fragments" flag, and each carries the bytes of
/// the sent datagram at its offset, the assembled bytes are exactly the
/// sent datagram. The fragments are assembled in offset order, so the
/// order in which they arrived plays no part.
pub proof fn lemma_reassembly_restores_datagram(q: Seq<FragRecord>, orig: Seq<u8>, out: Seq<u8>)
    requires
        tiles(q, orig.len() as int),
        forall|i: int|
            0 <= i < q.len() ==> frag_end(#[trigger] q[i]) <= orig.len() && q[i].data@ == orig.subrange(
                q[i].offset as int,
                frag_end(q[i]),
            ),
        assembled(q, out),
    ensures
        out == orig,
{
    assert forall|x: int| 0 <= x < orig.len() implies out[x] == orig[x] by {
        let j = lemma_tiles_cover(q, orig.len() as int, q.len() - 1, x);
        let f = q[j];
        let b = x - f.offset;
        assert(out[q[j].offset + b] == q[j].data@[b]);
        lemma_fragment_byte(f, orig, out, x);
    }
    assert(out =~= orig);
}

} // verus!
