//! Splitting a stream of data into streams of at most a given size (for providers that
//! limit the size of a request): each payload becomes chunks sent into the current stream,
//! which is closed when full and replaced by a new one.

use vstd::prelude::*;

verus! {

/// Where the splitter is: whether a stream is open, how much it holds, and how much data
/// has been sent in all.
#[derive(Clone, Copy, Debug, PartialEq, Eq, Structural)]
pub struct SplitState {
    pub open: bool,
    pub stream_size: u64,
    pub offset: u64,
}

/// What to do with a payload.
#[derive(Clone, Copy, Debug, PartialEq, Eq, Structural)]
pub enum SplitAction {
    /// Open a new stream, which starts at the given offset of the data.
    NewStream { offset: u64 },
    /// Send the bytes `from..to` of the payload into the open stream.
    Chunk { from: u64, to: u64 },
    /// Close the open stream.
    CloseStream,
}

/// The smaller of two numbers.
pub open spec fn min_int(a: int, b: int) -> int {
    if a < b { a } else { b }
}

/// Replaying actions on a payload of `len` bytes, of which `sent` are sent: a new stream
/// opens only when none is open and data is left, at the offset reached; a chunk sends as
/// much as is left and the stream can take; a stream closes only when full and data is left.
/// `None` if an action breaks these rules; else the state reached and the bytes sent.
pub open spec fn replay(actions: Seq<SplitAction>, st: SplitState, sent: int, len: int, max: int) -> Option<(SplitState, int)>
    decreases actions.len(),
{
    if actions.len() == 0 {
        Some((st, sent))
    } else {
        let rest = actions.drop_first();
        match actions[0] {
            SplitAction::NewStream { offset } => if !st.open && sent < len && offset == st.offset {
                replay(rest, SplitState { open: true, stream_size: 0, offset: st.offset }, sent, len, max)
            } else {
                None
            },
            SplitAction::Chunk { from, to } => {
                let n = min_int(len - sent, max - st.stream_size);
                if st.open && from == sent && n > 0 && to == sent + n {
                    replay(rest, SplitState {
                        open: true,
                        stream_size: (st.stream_size + n) as u64,
                        offset: (st.offset + n) as u64,
                    }, sent + n, len, max)
                } else {
                    None
                }
            },
            SplitAction::CloseStream => if st.open && st.stream_size == max && sent < len {
                replay(rest, SplitState { open: false, ..st }, sent, len, max)
            } else {
                None
            },
        }
    }
}

/// Replaying a prefix of actions and then the rest is replaying all of them.
pub proof fn lemma_replay_push(actions: Seq<SplitAction>, a: SplitAction, st: SplitState, sent: int, len: int, max: int)
    requires
        replay(actions, st, sent, len, max) is Some,
    ensures
        replay(actions.push(a), st, sent, len, max) == ({
            let (st1, sent1) = replay(actions, st, sent, len, max)->Some_0;
            replay(seq![a], st1, sent1, len, max)
        }),
    decreases actions.len(),
{
    if actions.len() > 0 {
        assert(actions.push(a).drop_first() =~= actions.drop_first().push(a));
        assert(actions.push(a)[0] == actions[0]);
        match actions[0] {
            SplitAction::NewStream { offset } => {
                lemma_replay_push(actions.drop_first(), a, SplitState { open: true, stream_size: 0, offset: st.offset }, sent, len, max);
            },
            SplitAction::Chunk { from, to } => {
                let n = min_int(len - sent, max - st.stream_size);
                lemma_replay_push(actions.drop_first(), a, SplitState {
                    open: true, stream_size: (st.stream_size + n) as u64, offset: (st.offset + n) as u64 }, sent + n, len, max);
            },
            SplitAction::CloseStream => {
                lemma_replay_push(actions.drop_first(), a, SplitState { open: false, ..st }, sent, len, max);
            },
        }
    } else {
        assert(actions.push(a) =~= seq![a]);
    }
}

/// The splitter of a data stream into streams of at most `max_size` bytes.
pub struct Splitter {
    pub max_size: u64,
    pub state: SplitState,
}

impl Splitter {
    /// A splitter into streams of at most `max_size` bytes (which must be positive: no data
    /// fits into empty streams).
    pub fn new(max_size: u64) -> (r: Splitter)
        requires
            max_size > 0,
        ensures
            r.max_size == max_size,
            r.state == (SplitState { open: false, stream_size: 0, offset: 0 }),
    {
        Splitter { max_size, state: SplitState { open: false, stream_size: 0, offset: 0 } }
    }

    /// The actions that send a payload of `len` bytes (see `replay`): they send all of it,
    /// in order, into streams of at most `max_size` bytes, each opened at the offset of the
    /// data it starts with.
    pub fn split_payload(&mut self, len: u64) -> (r: Vec<SplitAction>)
        requires
            old(self).max_size > 0,
            old(self).state.stream_size <= old(self).max_size,
            old(self).state.offset + len <= u64::MAX,
        ensures
            final(self).max_size == old(self).max_size,
            final(self).state.stream_size <= final(self).max_size,
            replay(r@, old(self).state, 0, len as int, old(self).max_size as int) == Some((final(self).state, len as int)),
    {
        let max = self.max_size;
        let ghost st0 = self.state;
        let mut actions: Vec<SplitAction> = Vec::new();
        let mut sent: u64 = 0;
        while sent < len
            invariant
                self.max_size == max,
                max > 0,
                sent <= len,
                self.state.stream_size <= max,
                self.state.offset == st0.offset + sent,
                st0.offset + len <= u64::MAX,
                replay(actions@, st0, 0, len as int, max as int) == Some((self.state, sent as int)),
            decreases 3 * (len - sent) + if self.state.open && self.state.stream_size == max { 1int } else { 0int },
        {
            let ghost a0 = actions@;
            let ghost s0 = self.state;
            if !self.state.open {
                let a = SplitAction::NewStream { offset: self.state.offset };
                actions.push(a);
                proof {
                    lemma_replay_push(a0, a, st0, 0, len as int, max as int);
                    assert(seq![a].drop_first() =~= Seq::<SplitAction>::empty());
                    reveal_with_fuel(replay, 2);
                }
                self.state = SplitState { open: true, stream_size: 0, offset: self.state.offset };
                let ghost a1 = actions@;
                let ghost s1 = self.state;
                let n = if len - sent < max { len - sent } else { max };
                let a = SplitAction::Chunk { from: sent, to: sent + n };
                actions.push(a);
                proof {
                    lemma_replay_push(a1, a, st0, 0, len as int, max as int);
                    assert(seq![a].drop_first() =~= Seq::<SplitAction>::empty());
                    reveal_with_fuel(replay, 2);
                }
                self.state = SplitState { open: true, stream_size: n, offset: self.state.offset + n };
                sent = sent + n;
            } else if self.state.stream_size == max {
                let a = SplitAction::CloseStream;
                actions.push(a);
                proof {
                    lemma_replay_push(a0, a, st0, 0, len as int, max as int);
                    assert(seq![a].drop_first() =~= Seq::<SplitAction>::empty());
                    reveal_with_fuel(replay, 2);
                }
                self.state = SplitState { open: false, ..self.state };
            } else {
                let available = max - self.state.stream_size;
                let n = if len - sent < available { len - sent } else { available };
                let a = SplitAction::Chunk { from: sent, to: sent + n };
                actions.push(a);
                proof {
                    lemma_replay_push(a0, a, st0, 0, len as int, max as int);
                    assert(seq![a].drop_first() =~= Seq::<SplitAction>::empty());
                    reveal_with_fuel(replay, 2);
                }
                self.state = SplitState {
                    open: true,
                    stream_size: self.state.stream_size + n,
                    offset: self.state.offset + n,
                };
                sent = sent + n;
            }
        }
        actions
    }

    /// The end of the data: the open stream (if any) is closed; the total size of the data
    /// is what the end is reported with.
    pub fn finish(&mut self) -> (r: u64)
        ensures
            r == old(self).state.offset,
            final(self).state == (SplitState { open: false, ..old(self).state }),
            final(self).max_size == old(self).max_size,
    {
        self.state = SplitState { open: false, ..self.state };
        self.state.offset
    }
}

/// The streams that replaying actions opens are never given more than `max` bytes, and the
/// data sent is all of the payload, in order.
pub proof fn lemma_replay_bounds(actions: Seq<SplitAction>, st: SplitState, sent: int, len: int, max: int)
    requires
        replay(actions, st, sent, len, max) is Some,
        st.stream_size <= max <= u64::MAX,
        0 <= sent <= len,
        st.offset + (len - sent) <= u64::MAX,
    ensures
        ({
            let (st1, sent1) = replay(actions, st, sent, len, max)->Some_0;
            &&& st1.stream_size <= max
            &&& sent <= sent1 <= len
            &&& st1.offset == st.offset + (sent1 - sent)
        }),
    decreases actions.len(),
{
    if actions.len() > 0 {
        let rest = actions.drop_first();
        match actions[0] {
            SplitAction::NewStream { offset } => {
                lemma_replay_bounds(rest, SplitState { open: true, stream_size: 0, offset: st.offset }, sent, len, max);
            },
            SplitAction::Chunk { from, to } => {
                let n = min_int(len - sent, max - st.stream_size);
                lemma_replay_bounds(rest, SplitState {
                    open: true, stream_size: (st.stream_size + n) as u64, offset: (st.offset + n) as u64 }, sent + n, len, max);
            },
            SplitAction::CloseStream => {
                lemma_replay_bounds(rest, SplitState { open: false, ..st }, sent, len, max);
            },
        }
    }
}

} // verus!
