use vstd::prelude::*;

verus! {

broadcast use vstd::seq_lib::group_to_multiset_ensures;

/// One line of a producer: when it was written and its bytes.
pub struct LogEntry {
    pub timestamp: u64,
    pub content: Vec<u8>,
}

impl View for LogEntry {
    type V = (u64, Seq<u8>);

    open spec fn view(&self) -> (u64, Seq<u8>) {
        (self.timestamp, self.content@)
    }
}

/// The entries of `s` as timestamps and byte sequences.
pub open spec fn entries_view(s: Seq<LogEntry>) -> Seq<(u64, Seq<u8>)> {
    s.map_values(|e: LogEntry| e@)
}

/// The sum of the content lengths of `s`.
pub open spec fn total_size(s: Seq<(u64, Seq<u8>)>) -> nat
    decreases s.len(),
{
    if s.len() == 0 {
        0
    } else {
        s[0].1.len() + total_size(s.drop_first())
    }
}

/// What a shard with byte budget `limit` keeps of `s`: the oldest entries go
/// while the rest is over the budget, but the last entry always stays.
pub open spec fn evict(s: Seq<(u64, Seq<u8>)>, limit: nat) -> Seq<(u64, Seq<u8>)>
    decreases s.len(),
{
    if s.len() > 1 && total_size(s) > limit {
        evict(s.drop_first(), limit)
    } else {
        s
    }
}

/// Whether the timestamps of `s` never decrease.
pub open spec fn sorted_by_timestamp(s: Seq<(u64, Seq<u8>)>) -> bool {
    forall|i: int, j: int| 0 <= i < j < s.len() ==> s[i].0 <= s[j].0
}

/// The entries of `s` whose timestamp is `t`, in order.
pub open spec fn with_timestamp(s: Seq<(u64, Seq<u8>)>, t: u64) -> Seq<(u64, Seq<u8>)>
    decreases s.len(),
{
    if s.len() == 0 {
        Seq::empty()
    } else if s.last().0 == t {
        with_timestamp(s.drop_last(), t).push(s.last())
    } else {
        with_timestamp(s.drop_last(), t)
    }
}

proof fn lemma_with_timestamp_insert(s: Seq<(u64, Seq<u8>)>, pos: int, x: (u64, Seq<u8>), t: u64)
    requires
        0 <= pos <= s.len(),
        forall|k: int| pos <= k < s.len() ==> s[k].0 > x.0,
    ensures
        with_timestamp(s.insert(pos, x), t) == if t == x.0 {
            with_timestamp(s, t).push(x)
        } else {
            with_timestamp(s, t)
        },
    decreases s.len(),
{
    let ins = s.insert(pos, x);
    if pos == s.len() {
        assert(ins =~= s.push(x));
        assert(ins.drop_last() =~= s);
    } else {
        let d = s.drop_last();
        lemma_with_timestamp_insert(d, pos, x, t);
        assert(ins.drop_last() =~= d.insert(pos, x));
        assert(ins.last() == s.last());
        assert(s.last().0 > x.0);
    }
}

proof fn lemma_total_push(s: Seq<(u64, Seq<u8>)>, x: (u64, Seq<u8>))
    ensures
        total_size(s.push(x)) == total_size(s) + x.1.len(),
    decreases s.len(),
{
    if s.len() > 0 {
        assert(s.push(x).drop_first() =~= s.drop_first().push(x));
        lemma_total_push(s.drop_first(), x);
    } else {
        assert(s.push(x).drop_first() =~= s);
    }
}

/// Eviction keeps a suffix of its input; of a non-empty input it keeps the last
/// entry, and what it keeps is within the budget unless it is that entry alone.
pub proof fn lemma_evict_keeps_newest(s: Seq<(u64, Seq<u8>)>, limit: nat)
    ensures
        evict(s, limit).len() <= s.len(),
        evict(s, limit) == s.skip(s.len() - evict(s, limit).len()),
        s.len() > 0 ==> evict(s, limit).len() >= 1 && evict(s, limit).last() == s.last(),
        total_size(evict(s, limit)) <= limit || evict(s, limit).len() == 1,
    decreases s.len(),
{
    if s.len() > 1 && total_size(s) > limit {
        lemma_evict_keeps_newest(s.drop_first(), limit);
        let r = evict(s, limit);
        assert(s.drop_first().skip(s.drop_first().len() - r.len()) =~= s.skip(s.len() - r.len()));
    } else {
        assert(s.skip(0) =~= s);
        if s.len() == 0 {
            assert(total_size(s) == 0);
        }
    }
}

/// A copy of `e` with the same timestamp and bytes.
fn copy_entry(e: &LogEntry) -> (r: LogEntry)
    ensures
        r@ == e@,
{
    let mut content: Vec<u8> = Vec::new();
    let mut i: usize = 0;
    while i < e.content.len()
        invariant
            i <= e.content@.len(),
            content@ == e.content@.take(i as int),
        decreases e.content@.len() - i,
    {
        content.push(e.content[i]);
        i = i + 1;
        assert(content@ =~= e.content@.take(i as int));
    }
    assert(e.content@.take(i as int) =~= e.content@);
    LogEntry { timestamp: e.timestamp, content }
}

/// The lines of one producer under a byte budget: the oldest lines are evicted
/// while the sum of content lengths exceeds the budget, but never the last one.
pub struct LocalShard {
    entries: Vec<LogEntry>,
    current_size: usize,
    size_limit: usize,
}

impl View for LocalShard {
    type V = Seq<(u64, Seq<u8>)>;

    closed spec fn view(&self) -> Seq<(u64, Seq<u8>)> {
        entries_view(self.entries@)
    }
}

impl LocalShard {
    /// The byte budget fixed at construction.
    pub closed spec fn limit(&self) -> nat {
        self.size_limit as nat
    }

    pub closed spec fn wf(&self) -> bool {
        self.current_size as nat == total_size(entries_view(self.entries@))
    }

    /// An empty shard with byte budget `size_limit`.
    pub fn new(size_limit: usize) -> (r: Self)
        ensures
            r.wf(),
            r@ == Seq::<(u64, Seq<u8>)>::empty(),
            r.limit() == size_limit as nat,
    {
        let r = LocalShard { entries: Vec::new(), current_size: 0, size_limit };
        assert(r@ =~= Seq::<(u64, Seq<u8>)>::empty());
        r
    }

    /// The sum of the content lengths of the entries held.
    pub fn current_size(&self) -> (r: usize)
        requires
            self.wf(),
        ensures
            r as nat == total_size(self@),
    {
        self.current_size
    }

    /// The number of entries held.
    pub fn len(&self) -> (r: usize)
        ensures
            r as nat == self@.len(),
    {
        self.entries.len()
    }

    /// Appends a line, then evicts from the front while the held bytes exceed
    /// the budget and more than one entry remains.
    pub fn push(&mut self, timestamp: u64, content: Vec<u8>)
        requires
            old(self).wf(),
            total_size(old(self)@) + content@.len() <= usize::MAX,
        ensures
            final(self).wf(),
            final(self).limit() == old(self).limit(),
            final(self)@ == evict(old(self)@.push((timestamp, content@)), old(self).limit()),
            total_size(final(self)@) <= final(self).limit() || final(self)@.len() == 1,
    {
        let ghost all = self@.push((timestamp, content@));
        let ghost limit = self.limit();
        proof {
            lemma_total_push(self@, (timestamp, content@));
        }
        let len = content.len();
        self.entries.push(LogEntry { timestamp, content });
        self.current_size = self.current_size + len;
        assert(self@ =~= all);
        while self.current_size > self.size_limit && self.entries.len() > 1
            invariant
                self.wf(),
                self.limit() == limit,
                evict(self@, limit) == evict(all, limit),
            decreases self.entries@.len(),
        {
            let ghost cur = self@;
            let gone = self.entries.remove(0);
            assert(self@ =~= cur.drop_first());
            self.current_size = self.current_size - gone.content.len();
        }
        proof {
            lemma_evict_keeps_newest(all, limit);
        }
    }

    /// Appends a copy of every entry held, oldest first, to `acc`; the shard
    /// keeps them.
    pub fn collect(&self, acc: &mut Vec<LogEntry>)
        ensures
            entries_view(final(acc)@) == entries_view(old(acc)@) + self@,
    {
        let mut i: usize = 0;
        while i < self.entries.len()
            invariant
                i <= self.entries@.len(),
                entries_view(acc@) == entries_view(old(acc)@) + self@.take(i as int),
            decreases self.entries@.len() - i,
        {
            let e = copy_entry(&self.entries[i]);
            let ghost before = acc@;
            acc.push(e);
            assert(entries_view(acc@) =~= entries_view(before).push(e@));
            i = i + 1;
            assert(self@.take(i as int) =~= self@.take(i - 1).push(self@[i - 1]));
            assert(entries_view(acc@) =~= entries_view(old(acc)@) + self@.take(i as int));
        }
        assert(self@.take(i as int) =~= self@);
    }
}

/// Orders `entries` by timestamp, oldest first; entries with equal timestamps
/// keep their order.
pub fn merge_by_timestamp(entries: Vec<LogEntry>) -> (r: Vec<LogEntry>)
    ensures
        sorted_by_timestamp(entries_view(r@)),
        entries_view(r@).to_multiset() == entries_view(entries@).to_multiset(),
        forall|t: u64|
            #[trigger] with_timestamp(entries_view(r@), t) == with_timestamp(
                entries_view(entries@),
                t,
            ),
{
    let ghost orig = entries_view(entries@);
    let mut input = entries;
    let mut out: Vec<LogEntry> = Vec::new();
    let mut taken: usize = 0;
    assert(orig.take(0) =~= Seq::<(u64, Seq<u8>)>::empty());
    assert(orig.skip(0) =~= orig);
    let n = input.len();
    assert(orig.len() == n);
    while input.len() > 0
        invariant
            taken <= orig.len(),
            orig.len() <= usize::MAX,
            entries_view(input@) == orig.skip(taken as int),
            sorted_by_timestamp(entries_view(out@)),
            entries_view(out@).to_multiset() == orig.take(taken as int).to_multiset(),
            forall|t: u64|
                #[trigger] with_timestamp(entries_view(out@), t) == with_timestamp(
                    orig.take(taken as int),
                    t,
                ),
        decreases input@.len(),
    {
        let ghost rest = input@;
        let e = input.remove(0);
        assert(entries_view(rest).len() == orig.skip(taken as int).len());
        assert(taken < orig.len());
        assert(entries_view(input@) =~= entries_view(rest).drop_first());
        assert(orig.skip(taken + 1) =~= orig.skip(taken as int).drop_first());
        assert(entries_view(rest)[0] == orig.skip(taken as int)[0]);
        let ghost ov = entries_view(out@);
        let mut pos: usize = 0;
        while pos < out.len() && out[pos].timestamp <= e.timestamp
            invariant
                pos <= out@.len(),
                ov == entries_view(out@),
                forall|k: int| 0 <= k < pos ==> ov[k].0 <= e.timestamp,
            decreases out@.len() - pos,
        {
            pos = pos + 1;
        }
        let ghost ev = e@;
        proof {
            if pos < ov.len() {
                assert(ov[pos as int].0 > ev.0);
                assert forall|k: int| pos <= k < ov.len() implies ov[k].0 > ev.0 by {
                    if k > pos {
                        assert(ov[pos as int].0 <= ov[k].0);
                    }
                }
            }
            let nv = ov.insert(pos as int, ev);
            assert forall|i: int, j: int| 0 <= i < j < nv.len() implies nv[i].0 <= nv[j].0 by {
                if j < pos {
                    assert(nv[i] == ov[i] && nv[j] == ov[j]);
                } else if j == pos {
                    assert(nv[i] == ov[i]);
                } else if i < pos {
                    assert(nv[i] == ov[i] && nv[j] == ov[j - 1]);
                    assert(ov[i].0 <= ov[j - 1].0);
                } else if i == pos {
                    assert(nv[j] == ov[j - 1]);
                } else {
                    assert(nv[i] == ov[i - 1] && nv[j] == ov[j - 1]);
                }
            }
        }
        assert(rest[0]@ == ev);
        assert(orig[taken as int] == ev);
        out.insert(pos, e);
        assert(entries_view(out@) =~= ov.insert(pos as int, ev));
        assert(orig.take(taken + 1) =~= orig.take(taken as int).push(ev));
        proof {
            let pre = orig.take(taken as int);
            assert forall|t: u64|
                #[trigger] with_timestamp(entries_view(out@), t) == with_timestamp(
                    orig.take(taken + 1),
                    t,
                ) by {
                lemma_with_timestamp_insert(ov, pos as int, ev, t);
                assert(orig.take(taken + 1).drop_last() =~= pre);
            }
        }
        taken = taken + 1;
    }
    assert(orig.take(taken as int) =~= orig);
    out
}

/// The sum of the contents of `s`, in order.
pub open spec fn joined_contents(s: Seq<(u64, Seq<u8>)>) -> Seq<u8>
    decreases s.len(),
{
    if s.len() == 0 {
        Seq::empty()
    } else {
        joined_contents(s.drop_last()) + s.last().1
    }
}

/// The contents of `entries` one after another, as a dump writes them: no
/// framing is added.
pub fn render(entries: &Vec<LogEntry>) -> (r: Vec<u8>)
    ensures
        r@ == joined_contents(entries_view(entries@)),
{
    let ghost ev = entries_view(entries@);
    let mut out: Vec<u8> = Vec::new();
    let mut i: usize = 0;
    assert(ev.take(0) =~= Seq::<(u64, Seq<u8>)>::empty());
    while i < entries.len()
        invariant
            i <= ev.len(),
            ev == entries_view(entries@),
            out@ == joined_contents(ev.take(i as int)),
        decreases ev.len() - i,
    {
        let content = &entries[i].content;
        let mut k: usize = 0;
        let ghost base = out@;
        while k < content.len()
            invariant
                k <= content@.len(),
                out@ == base + content@.take(k as int),
            decreases content@.len() - k,
        {
            out.push(content[k]);
            k = k + 1;
            assert(out@ =~= base + content@.take(k as int));
        }
        assert(content@.take(k as int) =~= content@);
        assert(ev.take(i + 1).drop_last() =~= ev.take(i as int));
        i = i + 1;
    }
    assert(ev.take(i as int) =~= ev);
    out
}

/// Who holds a shard: nobody, its writer, or a collector.
#[derive(Clone, Copy, Debug, PartialEq, Eq, Structural)]
pub enum ShardState {
    Unlocked,
    WriteLocked,
    CollectLocked,
}

/// What to do after reading a shard's state.
#[derive(Clone, Copy, Debug, PartialEq, Eq, Structural)]
pub enum LockStep {
    /// Swap the observed state for the given one.
    Take(ShardState),
    /// Sleep briefly and read again.
    BackOff,
    /// Read again at once.
    Spin,
    /// Leave the shard: another collector has it.
    Skip,
}

/// The writer's step on observing `observed`: it takes an unlocked shard and
/// backs off while anyone else holds it.
pub fn write_step(observed: ShardState) -> (r: LockStep)
    ensures
        observed == ShardState::Unlocked ==> r == LockStep::Take(ShardState::WriteLocked),
        observed != ShardState::Unlocked ==> r == LockStep::BackOff,
{
    match observed {
        ShardState::Unlocked => LockStep::Take(ShardState::WriteLocked),
        _ => LockStep::BackOff,
    }
}

/// A collector's step on observing `observed`: it takes an unlocked shard,
/// spins while the writer holds it, and leaves it to a collector that holds it.
pub fn collect_step(observed: ShardState) -> (r: LockStep)
    ensures
        observed == ShardState::Unlocked ==> r == LockStep::Take(ShardState::CollectLocked),
        observed == ShardState::WriteLocked ==> r == LockStep::Spin,
        observed == ShardState::CollectLocked ==> r == LockStep::Skip,
{
    match observed {
        ShardState::Unlocked => LockStep::Take(ShardState::CollectLocked),
        ShardState::WriteLocked => LockStep::Spin,
        ShardState::CollectLocked => LockStep::Skip,
    }
}


} // verus!
