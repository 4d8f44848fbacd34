use crate::buffer::{concat, keep_last, ring_after, lemma_ring_after_writes, AllocFailure, RingBuffer};
use vstd::prelude::*;

verus! {

/// A message from a producer to the thread that owns the ring.
pub enum Msg {
    /// Empty the ring.
    Clear,
    /// Hand out the ring's content in chronological order.
    Dump,
    /// Store a line, whole.
    Write(Vec<u8>),
}

/// A message as the contracts see it.
pub enum Request {
    Clear,
    Dump,
    Write(Seq<u8>),
}

impl View for Msg {
    type V = Request;

    open spec fn view(&self) -> Request {
        match self {
            Msg::Clear => Request::Clear,
            Msg::Dump => Request::Dump,
            Msg::Write(line) => Request::Write(line@),
        }
    }
}

/// The content of a ring of capacity `cap` after it serves `req`.
pub open spec fn apply(contents: Seq<u8>, req: Request, cap: nat) -> Seq<u8> {
    match req {
        Request::Clear => Seq::empty(),
        Request::Dump => contents,
        Request::Write(line) => keep_last(contents + line, cap),
    }
}

/// The content after serving `reqs` in order, and what each `Dump` among them
/// handed out, in order.
pub open spec fn serve(contents: Seq<u8>, reqs: Seq<Request>, cap: nat) -> (Seq<u8>, Seq<Seq<u8>>)
    decreases reqs.len(),
{
    if reqs.len() == 0 {
        (contents, Seq::empty())
    } else {
        let (c, dumps) = serve(contents, reqs.drop_last(), cap);
        let dumps2 = if reqs.last() is Dump {
            dumps.push(c)
        } else {
            dumps
        };
        (apply(c, reqs.last(), cap), dumps2)
    }
}

/// The `Write` requests of the lines `lines`, in order.
pub open spec fn writes_of(lines: Seq<Seq<u8>>) -> Seq<Request> {
    lines.map_values(|l: Seq<u8>| Request::Write(l))
}

proof fn lemma_serve_writes(contents: Seq<u8>, lines: Seq<Seq<u8>>, cap: nat)
    ensures
        serve(contents, writes_of(lines), cap) == (ring_after(contents, lines, cap), Seq::<Seq<u8>>::empty()),
    decreases lines.len(),
{
    if lines.len() > 0 {
        assert(writes_of(lines).drop_last() =~= writes_of(lines.drop_last()));
        lemma_serve_writes(contents, lines.drop_last(), cap);
    }
}

/// A `Dump` that follows writes of one producer hands out content that holds
/// every one of those writes: the last `cap` bytes of what the ring held before
/// followed by the lines in order; when the lines fit in the ring together with
/// what it held, all of that, whole.
pub proof fn lemma_dump_sees_prior_writes(contents: Seq<u8>, lines: Seq<Seq<u8>>, cap: nat)
    requires
        contents.len() <= cap,
    ensures
        serve(contents, writes_of(lines).push(Request::Dump), cap).1 == seq![
            keep_last(contents + concat(lines), cap),
        ],
        contents.len() + concat(lines).len() <= cap ==> serve(
            contents,
            writes_of(lines).push(Request::Dump),
            cap,
        ).1 == seq![contents + concat(lines)],
{
    let reqs = writes_of(lines).push(Request::Dump);
    assert(reqs.drop_last() =~= writes_of(lines));
    lemma_serve_writes(contents, lines, cap);
    lemma_ring_after_writes(contents, lines, cap);
    assert(Seq::<Seq<u8>>::empty().push(ring_after(contents, lines, cap)) =~= seq![
        ring_after(contents, lines, cap),
    ]);
}

/// The state of the thread that owns a ring buffer and serves producers'
/// messages one at a time.
pub struct RingFileBackend {
    buffer: RingBuffer,
}

impl RingFileBackend {
    pub closed spec fn wf(&self) -> bool {
        self.buffer.wf()
    }

    /// The content of the ring, in chronological order.
    pub closed spec fn contents(&self) -> Seq<u8> {
        self.buffer.contents()
    }

    /// The capacity of the ring.
    pub closed spec fn capacity(&self) -> nat {
        self.buffer.capacity()
    }

    /// A backend over an empty ring of `buf_size` bytes.
    pub fn new(buf_size: i32) -> (r: Result<Self, AllocFailure>)
        requires
            buf_size > 0,
        ensures
            r is Ok ==> {
                &&& r->Ok_0.wf()
                &&& r->Ok_0.capacity() == buf_size as nat
                &&& r->Ok_0.contents() == Seq::<u8>::empty()
            },
    {
        match RingBuffer::new(buf_size) {
            Ok(buffer) => Ok(RingFileBackend { buffer }),
            Err(e) => Err(e),
        }
    }

    /// Serves one message. A `Dump` returns the content for the caller to write
    /// out; the others return `None`.
    pub fn process(&mut self, msg: Msg) -> (r: Option<Vec<u8>>)
        requires
            old(self).wf(),
        ensures
            final(self).wf(),
            final(self).capacity() == old(self).capacity(),
            final(self).contents() == apply(old(self).contents(), msg@, old(self).capacity()),
            r is Some <==> msg is Dump,
            r is Some ==> r->Some_0@ == old(self).contents(),
            old(self).contents().len() <= old(self).capacity(),
    {
        proof {
            self.buffer.lemma_contents_len();
        }
        match msg {
            Msg::Clear => {
                self.buffer.clear();
                None
            },
            Msg::Dump => Some(self.buffer.snapshot()),
            Msg::Write(line) => {
                self.buffer.write_all(line.as_slice());
                None
            },
        }
    }
}

} // verus!
