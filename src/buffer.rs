use io_buffer::{safe_copy, Buffer};
use vstd::math::min;
use vstd::prelude::*;
use vstd::slice::slice_subrange;

verus! {

/// The bytes that an `io_buffer::Buffer` holds, as its `Deref` to `[u8]` shows them.
pub uninterp spec fn buffer_bytes(b: Buffer) -> Seq<u8>;

/// Whether an `io_buffer::Buffer` may be written through `DerefMut`.
pub uninterp spec fn buffer_mutable(b: Buffer) -> bool;

#[verifier::external_type_specification]
#[verifier::external_body]
pub struct ExBuffer(io_buffer::Buffer);

/// Relies on `io_buffer::Buffer::alloc`: an owned, mutable buffer whose length is
/// `size` (its content is not initialised), or the errno of a failed `malloc`.
/// It panics unless `size > 0`.
#[verifier::external_body]
fn alloc_buffer(size: i32) -> (r: Result<Buffer, i32>)
    requires
        size > 0,
    ensures
        r is Ok ==> buffer_bytes(r->Ok_0).len() == size as nat && buffer_mutable(r->Ok_0),
{
    match Buffer::alloc(size) {
        Ok(b) => Ok(b),
        Err(e) => Err(e as i32),
    }
}

/// Relies on `Deref for io_buffer::Buffer`: the slice of the buffer's bytes.
#[verifier::external_body]
fn buffer_slice(b: &Buffer) -> (r: &[u8])
    ensures
        r@ == buffer_bytes(*b),
{
    &b[..]
}

/// Relies on `io_buffer::safe_copy` applied to `DerefMut for io_buffer::Buffer`
/// from `offset` on: copies as many leading bytes of `src` as fit, and returns how
/// many. `DerefMut` panics in debug builds on a buffer that is not mutable.
#[verifier::external_body]
fn copy_into(b: &mut Buffer, offset: usize, src: &[u8]) -> (n: usize)
    requires
        offset <= buffer_bytes(*old(b)).len(),
        buffer_mutable(*old(b)),
    ensures
        n == min(buffer_bytes(*old(b)).len() - offset, src@.len() as int),
        buffer_bytes(*final(b)) == buffer_bytes(*old(b)).take(offset as int) + src@.take(n as int)
            + buffer_bytes(*old(b)).skip(offset + n),
        buffer_mutable(*final(b)),
{
    safe_copy(&mut b[offset..], src)
}

/// The last `n` elements of `s`, or all of `s` when it is not longer than `n`.
pub open spec fn keep_last(s: Seq<u8>, n: nat) -> Seq<u8> {
    if s.len() <= n {
        s
    } else {
        s.skip(s.len() - n)
    }
}

/// The concatenation of `writes` in order.
pub open spec fn concat(writes: Seq<Seq<u8>>) -> Seq<u8>
    decreases writes.len(),
{
    if writes.len() == 0 {
        Seq::empty()
    } else {
        concat(writes.drop_last()) + writes.last()
    }
}

/// What a ring of capacity `cap` holding `start` holds after each of `writes` is
/// stored whole.
pub open spec fn ring_after(start: Seq<u8>, writes: Seq<Seq<u8>>, cap: nat) -> Seq<u8>
    decreases writes.len(),
{
    if writes.len() == 0 {
        start
    } else {
        keep_last(ring_after(start, writes.drop_last(), cap) + writes.last(), cap)
    }
}

/// Keeping the last `n` bytes twice, with bytes appended in between, is keeping
/// the last `n` bytes of the whole once.
pub proof fn lemma_keep_last_append(a: Seq<u8>, b: Seq<u8>, n: nat)
    ensures
        keep_last(keep_last(a, n) + b, n) == keep_last(a + b, n),
{
    if a.len() > n {
        let k = keep_last(a, n);
        assert(keep_last(k + b, n) =~= keep_last(a + b, n));
    }
}

/// A ring holding `start`, not more than `cap` bytes, and then filled by whole
/// writes, holds the last `cap` bytes of `start` followed by all that was written;
/// while that stays within `cap`, it holds all of it, in order.
pub proof fn lemma_ring_after_writes(start: Seq<u8>, writes: Seq<Seq<u8>>, cap: nat)
    requires
        start.len() <= cap,
    ensures
        ring_after(start, writes, cap) == keep_last(start + concat(writes), cap),
        start.len() + concat(writes).len() <= cap ==> ring_after(start, writes, cap) == start
            + concat(writes),
    decreases writes.len(),
{
    if writes.len() > 0 {
        lemma_ring_after_writes(start, writes.drop_last(), cap);
        lemma_keep_last_append(start + concat(writes.drop_last()), writes.last(), cap);
        assert(start + concat(writes.drop_last()) + writes.last() =~= start + concat(writes));
    } else {
        assert(start + concat(writes) =~= start);
    }
}

/// A fixed-capacity circular byte buffer.
///
/// Writes go at the cursor; a write that reaches the end of the storage stores
/// what fits, sets the wrapped flag and moves the cursor back to the start.
pub struct RingBuffer {
    end: usize,
    full: bool,
    inner: Buffer,
}

/// Capacity of a ring: the storage allocated for it.
pub open spec fn storage_limit() -> nat {
    0x8000_0000
}

/// Why a ring buffer could not be made.
#[derive(Debug, PartialEq, Eq, Structural)]
pub struct AllocFailure {
    /// The errno of the failed allocation.
    pub errno: i32,
}

impl RingBuffer {
    /// The raw storage.
    pub closed spec fn storage(&self) -> Seq<u8> {
        buffer_bytes(self.inner)
    }

    /// The offset of the next write.
    pub closed spec fn cursor(&self) -> nat {
        self.end as nat
    }

    /// Whether a write has ever reached the end of the storage.
    pub closed spec fn wrapped(&self) -> bool {
        self.full
    }

    pub closed spec fn wf(&self) -> bool {
        &&& 0 < self.storage().len() < storage_limit()
        &&& self.end < self.storage().len()
        &&& buffer_mutable(self.inner)
    }

    /// The number of bytes the ring can hold.
    pub open spec fn capacity(&self) -> nat {
        self.storage().len()
    }

    /// The content in chronological order: from the cursor to the end and then
    /// from the start to the cursor once wrapped, else the start up to the cursor.
    pub open spec fn contents(&self) -> Seq<u8> {
        if self.wrapped() {
            self.storage().skip(self.cursor() as int) + self.storage().take(self.cursor() as int)
        } else {
            self.storage().take(self.cursor() as int)
        }
    }

    /// The content never exceeds the capacity.
    pub proof fn lemma_contents_len(&self)
        requires
            self.wf(),
        ensures
            self.contents().len() <= self.capacity(),
    {
    }

    /// Content shorter than the capacity, written whole into an empty ring, is
    /// what the ring then holds and a snapshot hands out, byte for byte, with
    /// nothing added.
    pub proof fn lemma_round_trip(empty: RingBuffer, filled: RingBuffer, content: Seq<u8>)
        requires
            empty.contents() == Seq::<u8>::empty(),
            content.len() < empty.capacity(),
            filled.contents() == keep_last(empty.contents() + content, empty.capacity()),
        ensures
            filled.contents() == content,
    {
        assert(empty.contents() + content =~= content);
    }

    /// Allocates a ring of `buf_size` bytes, empty.
    pub fn new(buf_size: i32) -> (r: Result<Self, AllocFailure>)
        requires
            buf_size > 0,
        ensures
            r is Ok ==> {
                let b = r->Ok_0;
                &&& b.wf()
                &&& b.capacity() == buf_size as nat
                &&& b.cursor() == 0
                &&& !b.wrapped()
                &&& b.contents() == Seq::<u8>::empty()
            },
    {
        match alloc_buffer(buf_size) {
            Ok(inner) => {
                let r = RingBuffer { end: 0, inner, full: false };
                assert(r.contents() =~= Seq::<u8>::empty());
                Ok(r)
            },
            Err(errno) => Err(AllocFailure { errno }),
        }
    }
    /// Stores `buf` at the cursor and returns how many of its bytes were stored.
    /// A write that reaches the end of the storage stores only what fits there,
    /// marks the ring wrapped and moves the cursor back to the start.
    pub fn write(&mut self, buf: &[u8]) -> (n: usize)
        requires
            old(self).wf(),
        ensures
            final(self).wf(),
            final(self).capacity() == old(self).capacity(),
            old(self).cursor() + buf@.len() >= old(self).capacity() ==> {
                &&& n == old(self).capacity() - old(self).cursor()
                &&& final(self).cursor() == 0
                &&& final(self).wrapped()
            },
            old(self).cursor() + buf@.len() < old(self).capacity() ==> {
                &&& n == buf@.len()
                &&& final(self).cursor() == old(self).cursor() + buf@.len()
                &&& final(self).wrapped() == old(self).wrapped()
            },
            final(self).storage() == old(self).storage().take(old(self).cursor() as int)
                + buf@.take(n as int) + old(self).storage().skip(old(self).cursor() + n),
            final(self).contents() == keep_last(
                old(self).contents() + buf@.take(n as int),
                old(self).capacity(),
            ),
    {
        let ghost pre = *self;
        let bound = buffer_slice(&self.inner).len();
        let l = buf.len();
        let e = self.end;
        let ghost st = pre.storage();
        if l >= bound - self.end {
            self.full = true;
            let l1 = copy_into(&mut self.inner, self.end, buf);
            self.end = 0;
            proof {
                let now = self.storage();
                assert(now =~= st.take(e as int) + buf@.take(l1 as int));
                assert(self.contents() =~= now);
                if pre.wrapped() {
                    let all = pre.contents() + buf@.take(l1 as int);
                    assert(keep_last(all, pre.capacity()) =~= now);
                } else {
                    assert(pre.contents() + buf@.take(l1 as int) =~= now);
                }
            }
            l1
        } else {
            copy_into(&mut self.inner, self.end, buf);
            self.end = self.end + l;
            proof {
                let now = self.storage();
                assert(now.take(e + l) =~= st.take(e as int) + buf@);
                assert(buf@.take(l as int) =~= buf@);
                if pre.wrapped() {
                    assert(now.skip(e + l) =~= st.skip(e + l));
                    let all = pre.contents() + buf@;
                    assert(keep_last(all, pre.capacity()) =~= self.contents());
                } else {
                    assert(pre.contents() + buf@ =~= self.contents());
                }
            }
            l
        }
    }

    /// Stores all of `buf`, writing again after each wrap until every byte is in:
    /// the ring then holds the last `capacity` bytes of what it held followed by
    /// `buf`.
    pub fn write_all(&mut self, buf: &[u8])
        requires
            old(self).wf(),
        ensures
            final(self).wf(),
            final(self).capacity() == old(self).capacity(),
            final(self).contents() == keep_last(old(self).contents() + buf@, old(self).capacity()),
    {
        let ghost start = self.contents();
        let ghost cap = self.capacity();
        let mut off: usize = 0;
        assert(buf@.take(0) =~= Seq::<u8>::empty());
        assert(start + Seq::<u8>::empty() =~= start);
        assert(keep_last(start, cap) == start);
        while off < buf.len()
            invariant
                self.wf(),
                self.capacity() == cap,
                off <= buf@.len(),
                self.contents() == keep_last(start + buf@.take(off as int), cap),
            decreases buf@.len() - off,
        {
            let rest = slice_subrange(buf, off, buf.len());
            let ghost before = self.contents();
            let n = self.write(rest);
            proof {
                lemma_keep_last_append(start + buf@.take(off as int), rest@.take(n as int), cap);
                assert(start + buf@.take(off as int) + rest@.take(n as int)
                    =~= start + buf@.take(off + n));
            }
            off = off + n;
        }
        assert(buf@.take(off as int) =~= buf@);
    }

    /// Empties the ring: cursor at the start, not wrapped.
    pub fn clear(&mut self)
        requires
            old(self).wf(),
        ensures
            final(self).wf(),
            final(self).capacity() == old(self).capacity(),
            final(self).cursor() == 0,
            !final(self).wrapped(),
            final(self).contents() == Seq::<u8>::empty(),
    {
        self.end = 0;
        self.full = false;
        assert(self.contents() =~= Seq::<u8>::empty());
    }

    /// The content in chronological order, as a dump writes it out.
    pub fn snapshot(&self) -> (r: Vec<u8>)
        requires
            self.wf(),
        ensures
            r@ == self.contents(),
    {
        let bytes = buffer_slice(&self.inner);
        let mut out: Vec<u8> = Vec::new();
        if self.full {
            append_range(&mut out, bytes, self.end, bytes.len());
        }
        append_range(&mut out, bytes, 0, self.end);
        assert(out@ =~= self.contents());
        out
    }
}

/// Appends `src[from..to]` to `out`.
fn append_range(out: &mut Vec<u8>, src: &[u8], from: usize, to: usize)
    requires
        from <= to <= src@.len(),
    ensures
        final(out)@ == old(out)@ + src@.subrange(from as int, to as int),
{
    let mut i: usize = from;
    while i < to
        invariant
            from <= i <= to,
            to <= src@.len(),
            out@ == old(out)@ + src@.subrange(from as int, i as int),
        decreases to - i,
    {
        out.push(src[i]);
        i = i + 1;
        assert(out@ =~= old(out)@ + src@.subrange(from as int, i as int));
    }
}

} // verus!
