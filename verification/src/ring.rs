//! The ring buffer engine: state, invariant, and the write/read algorithms.

use vstd::prelude::*;

verus! {

/// The last `cap` bytes of `s`, or all of `s` when it is no longer than `cap`.
///
/// This is the retention model of the buffer: after any sequence of writes,
/// the buffer retains exactly `seq_tail(stream, capacity)` where `stream` is
/// the concatenation of everything ever written since construction or the
/// last reset.
pub open spec fn seq_tail(s: Seq<u8>, cap: nat) -> Seq<u8> {
    if s.len() <= cap {
        s
    } else {
        s.subrange(s.len() - cap, s.len() as int)
    }
}

/// Number of bytes of an input of length `len` that survive a single write
/// into a buffer of capacity `cap`: the whole input, unless it is longer
/// than the capacity, in which case only its last `cap` bytes matter.
pub open spec fn write_trunc(len: nat, cap: nat) -> nat {
    if len > cap {
        cap
    } else {
        len
    }
}

/// Logical offset of physical index `i` from the cursor `c`, in a ring of
/// size `sz`: how many steps forward (with wrap-around) from `c` reach `i`.
spec fn ring_off(i: int, c: int, sz: int) -> int {
    if i >= c {
        i - c
    } else {
        i + sz - c
    }
}

/// Physical index `k` steps forward (with wrap-around) from position `c`
/// in a ring of size `sz`, for `0 <= c < sz` and `0 <= k <= sz`.
spec fn ring_pos(c: int, k: int, sz: int) -> int {
    if c + k < sz {
        c + k
    } else {
        c + k - sz
    }
}

/// Copies `count` bytes from `src[src_start..]` into `dst` starting at
/// `dst_start`, leaving every other byte of `dst` unchanged.  This is the
/// one leaf copy primitive of the crate; source and destination can never
/// alias, because `dst` is exclusively borrowed.
fn copy(dst: &mut Vec<u8>, dst_start: usize, src: &[u8], src_start: usize, count: usize)
    requires
        dst_start + count <= old(dst)@.len(),
        src_start + count <= src@.len(),
    ensures
        final(dst)@.len() == old(dst)@.len(),
        forall|i: int|
            dst_start <= i < dst_start + count ==> final(dst)@[i] == src@[i - dst_start
                + src_start],
        forall|i: int|
            0 <= i < old(dst)@.len() && !(dst_start <= i < dst_start + count) ==> final(dst)@[i]
                == old(dst)@[i],
{
    let dst_len: usize = dst.len();
    let src_len: usize = src.len();
    let mut i: usize = 0;
    while i < count
        invariant
            i <= count,
            dst_len == dst@.len(),
            src_len == src@.len(),
            dst_start + count <= dst@.len(),
            src_start + count <= src@.len(),
            dst@.len() == old(dst)@.len(),
            forall|j: int|
                dst_start <= j < dst_start + i ==> dst@[j] == src@[j - dst_start + src_start],
            forall|j: int|
                0 <= j < dst@.len() && !(dst_start <= j < dst_start + i) ==> dst@[j] == old(
                    dst,
                )@[j],
        decreases count - i,
    {
        let b: u8 = src[src_start + i];
        dst[dst_start + i] = b;
        i = i + 1;
    }
}

/// Relation between a buffer before and after one wrap-around write of
/// `buf`: the counter grows by the whole input length, the cursor advances
/// by the truncated length (with wrap-around), and every physical index
/// within the truncated length of the old cursor holds the corresponding
/// input byte while all other bytes are unchanged.
spec fn wrote_ring(pre: Buffer, post: Buffer, buf: Seq<u8>) -> bool {
    let sz = pre.capacity() as int;
    let c = pre.cursor() as int;
    let mm = write_trunc(buf.len(), pre.capacity()) as int;
    let st = buf.len() - mm;
    &&& post.capacity() == pre.capacity()
    &&& post.total_written() == pre.total_written() + buf.len()
    &&& post.cursor() == ring_pos(c, mm, sz)
    &&& forall|i: int|
        0 <= i < sz ==> #[trigger] post.storage()[i] == (if ring_off(i, c, sz) < mm {
            buf[st + ring_off(i, c, sz)]
        } else {
            pre.storage()[i]
        })
}

/// After one write related to the old state by `wrote_ring`, the buffer is
/// still well-formed and retains exactly the tail of the old retained bytes
/// followed by the input.
proof fn lemma_write_shape(pre: Buffer, post: Buffer, buf: Seq<u8>)
    requires
        pre.wf(),
        pre.capacity() > 0,
        wrote_ring(pre, post, buf),
    ensures
        post.wf(),
        post@ == seq_tail(pre@ + buf, pre.capacity()),
{
    let sz = pre.capacity() as int;
    let c = pre.cursor() as int;
    let w = pre.total_written() as int;
    let nn = buf.len() as int;
    let mm = write_trunc(buf.len(), pre.capacity()) as int;
    let st = nn - mm;
    let w2 = w + nn;
    let cur2 = post.cursor() as int;
    let r0 = pre.retained();
    let ll = r0.len() as int;
    let t = seq_tail(r0 + buf, pre.capacity());

    // Length of the old retained sequence is min(total_written, capacity).
    assert(ll == if w < sz {
        w
    } else {
        sz
    });

    // Well-formedness of the post state.
    assert(cur2 == ring_pos(c, mm, sz));
    assert(0 <= cur2 < sz);
    if w2 < sz {
        assert(mm == nn && c == w);
        assert(cur2 == w2);
    }
    if w2 == sz {
        if nn == 0 {
            assert(c == 0 && mm == 0);
        } else {
            assert(c == w && mm == nn);
        }
        assert(cur2 == 0);
    }
    assert(post.wf());

    // Element characterization of the old retained bytes once wrapped.
    if w >= sz {
        assert forall|k: int| 0 <= k < sz implies r0[k] == pre.storage()[ring_pos(
            c,
            k,
            sz,
        )] by {
            if c == 0 {
                assert(r0 == pre.storage());
            } else {
                assert(r0[k] == (pre.storage().subrange(c, sz) + pre.storage().subrange(0, c))[k]);
            }
        }
    }

    if nn == 0 {
        // Nothing was written: storage, cursor and counter are unchanged.
        assert forall|i: int| 0 <= i < sz implies #[trigger] post.storage()[i]
            == pre.storage()[i] by {
            assert(ring_off(i, c, sz) >= 0);
        }
        assert(post.storage() =~= pre.storage());
        assert(post.cursor() == pre.cursor());
        assert(post.retained() == pre.retained());
        assert(r0 + buf =~= r0);
        assert(t == seq_tail(r0, pre.capacity()));
        assert(post.retained() == t);
    } else if w2 <= sz {
        // Not yet wrapped (or landing exactly on the boundary): the new
        // retained bytes are the old ones followed by the whole input.
        assert(w < sz);
        assert(c == w && mm == nn && st == 0);
        assert(r0 == pre.storage().subrange(0, c));
        assert((r0 + buf).len() == w2);
        assert(t == r0 + buf);
        assert forall|k: int| 0 <= k < w2 implies post.storage()[k] == (r0 + buf)[k] by {
            assert(post.storage()[k] == (if ring_off(k, c, sz) < mm {
                buf[st + ring_off(k, c, sz)]
            } else {
                pre.storage()[k]
            }));
            if k < c {
                assert(ring_off(k, c, sz) == k + sz - c);
                assert(k + sz - c >= mm);
                assert((r0 + buf)[k] == r0[k]);
            } else {
                assert(ring_off(k, c, sz) == k - c);
                assert((r0 + buf)[k] == buf[k - c]);
            }
        }
        if w2 < sz {
            assert(post.retained() == post.storage().subrange(0, cur2));
            assert(post.retained() =~= t);
        } else {
            assert(post.retained() == post.storage());
            assert(post.retained() =~= t);
        }
    } else {
        // Wrapped: exactly the last `sz` bytes of `r0 + buf` are retained.
        assert(ll + nn > sz);
        assert(t == (r0 + buf).subrange(ll + nn - sz, ll + nn));
        assert(t.len() == sz);
        assert forall|k: int| 0 <= k < sz implies post.retained()[k] == post.storage()[ring_pos(
            cur2,
            k,
            sz,
        )] by {
            if cur2 == 0 {
                assert(post.retained() == post.storage());
            } else {
                assert(post.retained()[k] == (post.storage().subrange(cur2, sz)
                    + post.storage().subrange(0, cur2))[k]);
            }
        }
        assert(post.retained().len() == sz);
        assert forall|k: int| 0 <= k < sz implies post.retained()[k] == t[k] by {
            let j = ring_pos(cur2, k, sz);
            assert(post.retained()[k] == post.storage()[ring_pos(cur2, k, sz)]);
            let o = if mm + k < sz {
                mm + k
            } else {
                mm + k - sz
            };
            assert(0 <= j < sz);
            assert(ring_off(j, c, sz) == o);
            assert(post.storage()[j] == (if ring_off(j, c, sz) < mm {
                buf[st + ring_off(j, c, sz)]
            } else {
                pre.storage()[j]
            }));
            assert(t[k] == (r0 + buf)[ll + nn - sz + k]);
            if k >= sz - mm {
                assert(o == mm + k - sz && o < mm);
                assert(post.storage()[j] == buf[st + (mm + k - sz)]);
                assert(ll + nn - sz + k >= ll);
                assert((r0 + buf)[ll + nn - sz + k] == buf[nn - sz + k]);
                assert(st + (mm + k - sz) == nn - sz + k);
            } else {
                assert(mm < sz);
                assert(mm == nn && st == 0);
                assert(o == mm + k && o >= mm);
                assert(post.storage()[j] == pre.storage()[j]);
                assert(0 <= ll + nn - sz + k < ll);
                assert((r0 + buf)[ll + nn - sz + k] == r0[ll + nn - sz + k]);
                if w >= sz {
                    assert(ll == sz);
                    assert(r0[nn + k] == pre.storage()[ring_pos(c, nn + k, sz)]);
                    assert(j == ring_pos(c, nn + k, sz));
                } else {
                    assert(ll == c);
                    assert(r0 == pre.storage().subrange(0, c));
                    assert(j == c + nn - sz + k);
                    assert(r0[c + nn - sz + k] == pre.storage()[c + nn - sz + k]);
                }
            }
        }
        assert(post.retained() =~= t);
    }
}

/// A circular buffer of fixed capacity: new writes overwrite older data, so
/// that for a buffer of capacity `N`, after any amount of writes, only the
/// last `N` bytes are retained.
#[derive(Debug, Clone, PartialEq, Eq)]
pub struct Buffer {
    data: Vec<u8>,
    write_cursor: usize,
    written: usize,
}

impl View for Buffer {
    type V = Seq<u8>;

    /// The bytes currently retained, oldest first.
    open spec fn view(&self) -> Seq<u8> {
        self.retained()
    }
}

impl Buffer {
    /// The raw backing storage, in physical (not chronological) order.
    pub closed spec fn storage(self) -> Seq<u8> {
        self.data@
    }

    /// The offset at which the next byte will be written.
    pub closed spec fn cursor(self) -> nat {
        self.write_cursor as nat
    }

    /// Total number of bytes ever submitted via `write` since construction
    /// or the last `reset`, including bytes since overwritten.
    pub closed spec fn total_written(self) -> nat {
        self.written as nat
    }

    /// The buffer's fixed capacity: the length of the backing storage.
    pub open spec fn capacity(self) -> nat {
        self.storage().len()
    }

    /// Well-formedness: the cursor stays inside the storage, and while the
    /// buffer has not yet wrapped the cursor equals the number of bytes
    /// written (landing back on 0 when exactly full).
    pub open spec fn wf(self) -> bool {
        &&& if self.capacity() == 0 {
            self.cursor() == 0
        } else {
            self.cursor() < self.capacity()
        }
        &&& self.total_written() < self.capacity() ==> self.cursor() == self.total_written()
        &&& self.total_written() == self.capacity() ==> self.cursor() == 0
    }

    /// The bytes currently retained, in chronological order: once the buffer
    /// has wrapped, the oldest byte sits at the cursor and the storage is a
    /// rotation; before that, only the prefix up to the cursor is valid.
    pub open spec fn retained(self) -> Seq<u8> {
        if self.total_written() >= self.capacity() && self.cursor() == 0 {
            self.storage()
        } else if self.total_written() > self.capacity() {
            self.storage().subrange(self.cursor() as int, self.capacity() as int)
                + self.storage().subrange(0, self.cursor() as int)
        } else {
            self.storage().subrange(0, self.cursor() as int)
        }
    }

    /// Creates a new buffer backed by the given storage.  The existing
    /// contents of `data` are irrelevant: nothing is retained until written.
    pub fn new(data: Vec<u8>) -> (r: Buffer)
        ensures
            r.wf(),
            r.capacity() == data@.len(),
            r.storage() == data@,
            r.total_written() == 0,
            r@ == Seq::<u8>::empty(),
    {
        let r = Buffer { data, write_cursor: 0, written: 0 };
        proof {
            assert(r@ =~= Seq::<u8>::empty());
        }
        r
    }

    /// Writes `buf` into the ring, overwriting older data as needed, and
    /// returns `buf.len()`: the buffer never rejects bytes.  When the input
    /// is longer than the capacity, only its last `capacity` bytes remain
    /// retained.  After the call the buffer retains exactly the last
    /// `capacity` bytes of what it retained before followed by `buf`.
    pub fn write(&mut self, buf: &[u8]) -> (n: usize)
        requires
            old(self).wf(),
            old(self).capacity() > 0,
            old(self).total_written() + buf@.len() <= usize::MAX,
        ensures
            final(self).wf(),
            n == buf@.len(),
            final(self).capacity() == old(self).capacity(),
            final(self).storage().len() == old(self).storage().len(),
            final(self).total_written() == old(self).total_written() + buf@.len(),
            final(self)@ == seq_tail(old(self)@ + buf@, old(self).capacity()),
    {
        let n = buf.len();
        let size = self.data.len();
        self.written = self.written + n;

        // Only the last `size` bytes of the input can survive this write.
        let start: usize = if n > size {
            n - size
        } else {
            0
        };
        let m: usize = n - start;
        let remain: usize = size - self.write_cursor;

        if m <= remain {
            copy(&mut self.data, self.write_cursor, buf, start, m);
        } else {
            copy(&mut self.data, self.write_cursor, buf, start, remain);
            copy(&mut self.data, 0, buf, start + remain, m - remain);
        }
        let cursor = if m >= remain {
            m - remain
        } else {
            self.write_cursor + m
        };
        self.write_cursor = cursor;

        proof {
            let sz = old(self).capacity() as int;
            let c = old(self).cursor() as int;
            let nn = buf@.len() as int;
            let mm = m as int;
            let st = start as int;
            assert(mm == write_trunc(buf@.len(), old(self).capacity()) as int);
            assert(st == nn - mm);
            assert(self.cursor() == ring_pos(c, mm, sz));
            if m <= remain {
                assert forall|i: int| 0 <= i < sz implies #[trigger] self.storage()[i] == (
                if ring_off(i, c, sz) < mm {
                    buf@[st + ring_off(i, c, sz)]
                } else {
                    old(self).storage()[i]
                }) by {
                    if c <= i < c + mm {
                        assert(self.storage()[i] == buf@[i - c + st]);
                        assert(ring_off(i, c, sz) == i - c);
                    } else if i < c {
                        assert(ring_off(i, c, sz) == i + sz - c);
                        assert(i + sz - c >= sz - c >= mm);
                    } else {
                        assert(ring_off(i, c, sz) == i - c >= mm);
                    }
                }
            } else {
                let rr = remain as int;
                assert forall|i: int| 0 <= i < sz implies #[trigger] self.storage()[i] == (
                if ring_off(i, c, sz) < mm {
                    buf@[st + ring_off(i, c, sz)]
                } else {
                    old(self).storage()[i]
                }) by {
                    if c <= i {
                        assert(ring_off(i, c, sz) == i - c < rr <= mm);
                        assert(mm - rr <= c);
                        assert(self.storage()[i] == buf@[i - c + st]);
                    } else if i < mm - rr {
                        assert(ring_off(i, c, sz) == i + sz - c == i + rr);
                        assert(self.storage()[i] == buf@[i + (st + rr)]);
                    } else {
                        assert(ring_off(i, c, sz) == i + sz - c >= mm);
                        assert(self.storage()[i] == old(self).storage()[i]);
                    }
                }
            }
            assert(wrote_ring(*old(self), *self, buf@));
            lemma_write_shape(*old(self), *self, buf@);
        }
        n
    }

    /// Returns how many bytes can currently be read back from the buffer.
    /// This is what a destination passed to `read_into` must hold.
    pub fn read_hint(&self) -> (r: usize)
        requires
            self.wf(),
        ensures
            r == self@.len(),
            r <= self.capacity(),
    {
        let size = self.data.len();
        if self.written >= size && self.write_cursor == 0 {
            size
        } else if self.written > size {
            size
        } else {
            self.write_cursor
        }
    }

    /// Reads the whole retained content into the front of `dst`, oldest byte
    /// first, and returns the number of bytes written there.  Bytes of `dst`
    /// beyond that count are left unchanged.  The destination must be large
    /// enough: callers check with `read_hint` first.
    pub fn read_into(&self, dst: &mut Vec<u8>) -> (r: usize)
        requires
            self.wf(),
            old(dst)@.len() >= self@.len(),
        ensures
            r == self@.len(),
            final(dst)@.len() == old(dst)@.len(),
            final(dst)@.subrange(0, r as int) == self@,
            final(dst)@.subrange(r as int, final(dst)@.len() as int) == old(dst)@.subrange(
                r as int,
                old(dst)@.len() as int,
            ),
    {
        let size = self.data.len();
        if self.written >= size && self.write_cursor == 0 {
            // Exactly full with the cursor on the boundary: the storage is
            // already in chronological order.
            copy(dst, 0, self.data.as_slice(), 0, size);
            proof {
                assert(self@ == self.storage());
                assert(final(dst)@.subrange(0, size as int) =~= self@);
                assert(final(dst)@.subrange(size as int, final(dst)@.len() as int) =~= old(
                    dst,
                )@.subrange(size as int, old(dst)@.len() as int));
            }
            size
        } else if self.written > size {
            // Wrapped: oldest bytes run from the cursor to the end, newest
            // from the start to the cursor.
            let tail_len = size - self.write_cursor;
            copy(dst, 0, self.data.as_slice(), self.write_cursor, tail_len);
            copy(dst, tail_len, self.data.as_slice(), 0, self.write_cursor);
            proof {
                let c = self.cursor() as int;
                let sz = self.capacity() as int;
                assert(self@ == self.storage().subrange(c, sz) + self.storage().subrange(0, c));
                assert(self@.len() == sz);
                assert forall|k: int| 0 <= k < sz implies final(dst)@[k] == self@[k] by {
                    if k < sz - c {
                        assert(final(dst)@[k] == self.storage()[k + c]);
                        assert(self@[k] == self.storage().subrange(c, sz)[k]);
                    } else {
                        assert(final(dst)@[k] == self.storage()[k - (sz - c)]);
                        assert(self@[k] == self.storage().subrange(0, c)[k - (sz - c)]);
                    }
                }
                assert(final(dst)@.subrange(0, size as int) =~= self@);
                assert(final(dst)@.subrange(size as int, final(dst)@.len() as int) =~= old(
                    dst,
                )@.subrange(size as int, old(dst)@.len() as int));
            }
            size
        } else {
            // Never wrapped: only the prefix up to the cursor is valid.
            copy(dst, 0, self.data.as_slice(), 0, self.write_cursor);
            proof {
                let c = self.cursor() as int;
                assert(self@ == self.storage().subrange(0, c));
                assert(final(dst)@.subrange(0, c) =~= self@);
                assert(final(dst)@.subrange(c, final(dst)@.len() as int) =~= old(dst)@.subrange(
                    c,
                    old(dst)@.len() as int,
                ));
            }
            self.write_cursor
        }
    }

    /// Returns the retained bytes, oldest first, as a freshly materialized
    /// vector, independent of future writes.
    pub fn read_to_bytes(&self) -> (r: Vec<u8>)
        requires
            self.wf(),
        ensures
            r@ == self@,
    {
        let len = self.read_hint();
        let mut out: Vec<u8> = Vec::new();
        while out.len() < len
            invariant
                out@.len() <= len,
            decreases len - out@.len(),
        {
            out.push(0u8);
        }
        let r = self.read_into(&mut out);
        proof {
            assert(out@ =~= out@.subrange(0, r as int));
        }
        out
    }

    /// Returns the capacity of the buffer.
    pub fn size(&self) -> (r: usize)
        ensures
            r == self.capacity(),
    {
        self.data.len()
    }

    /// Returns the total number of bytes written to the buffer.
    pub fn written(&self) -> (r: usize)
        ensures
            r == self.total_written(),
    {
        self.written
    }

    /// Resets the buffer so it has no content.  The bytes in storage are not
    /// cleared; they merely become unreachable until overwritten.
    pub fn reset(&mut self)
        ensures
            final(self).wf(),
            final(self).capacity() == old(self).capacity(),
            final(self).storage() == old(self).storage(),
            final(self).total_written() == 0,
            final(self)@ == Seq::<u8>::empty(),
    {
        self.write_cursor = 0;
        self.written = 0;
        proof {
            assert(self@ =~= Seq::<u8>::empty());
        }
    }

    /// Consumes the buffer and returns the underlying storage.
    pub fn into_inner(self) -> (r: Vec<u8>)
        ensures
            r@ == self.storage(),
    {
        self.data
    }
}

impl From<Vec<u8>> for Buffer {
    /// Creates a new buffer backed by the given storage, like `Buffer::new`.
    fn from(data: Vec<u8>) -> (r: Buffer)
        ensures
            r.wf(),
            r.capacity() == data@.len(),
            r.storage() == data@,
            r.total_written() == 0,
            r@ == Seq::<u8>::empty(),
    {
        let r = Buffer { data, write_cursor: 0, written: 0 };
        proof {
            assert(r@ =~= Seq::<u8>::empty());
        }
        r
    }
}

impl vstd::std_specs::convert::FromSpecImpl<Vec<u8>> for Buffer {
    open spec fn obeys_from_spec() -> bool {
        true
    }

    closed spec fn from_spec(data: Vec<u8>) -> Buffer {
        Buffer { data, write_cursor: 0, written: 0 }
    }
}

} // verus!
