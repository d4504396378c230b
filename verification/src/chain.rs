use vstd::prelude::*;
use std::collections::VecDeque;

verus! {

/// What shifting `item` into a bounded queue holding `items` (oldest first) with room
/// for `size` items gives: the new contents and the item pushed out, if any.
pub open spec fn shift_model<T>(items: Seq<T>, size: nat, item: Option<T>) -> (Seq<T>, Option<T>) {
    match item {
        None => (items, None),
        Some(x) => {
            let s = items.push(x);
            if s.len() > size {
                (s.drop_first(), Some(s[0]))
            } else {
                (s, None)
            }
        },
    }
}

/// The items of an optional value: none or one.
pub open spec fn opt_seq<T>(o: Option<T>) -> Seq<T> {
    match o {
        Some(x) => seq![x],
        None => Seq::empty(),
    }
}

/// The contents of a buffer as plain values: its items, oldest first, and how many items
/// it keeps.
pub struct BufferView<T> {
    pub items: Seq<T>,
    pub size: nat,
}

/// A bounded first-in first-out queue. New items enter at the front of the deque and
/// the oldest leaves at its back once the queue holds more than `size` items.
pub struct Buffer<T> {
    size: usize,
    buffer: VecDeque<T>,
}

impl<T> View for Buffer<T> {
    type V = BufferView<T>;

    closed spec fn view(&self) -> BufferView<T> {
        BufferView { items: self.buffer@.reverse(), size: self.size as nat }
    }
}

impl<T> Buffer<T> {
    /// The buffer never holds more items than it keeps.
    #[verifier::type_invariant]
    closed spec fn within_size(self) -> bool {
        self.buffer@.len() <= self.size
    }

    /// An empty buffer that keeps up to `size` items.
    pub fn new(size: usize) -> (b: Self)
        ensures
            b@.items == Seq::<T>::empty(),
            b@.size == size,
            b@.items.len() <= b@.size,
    {
        let b = Buffer { size, buffer: VecDeque::new() };
        assert(b@.items =~= Seq::<T>::empty());
        b
    }

    /// Puts `item` into the buffer; once the buffer holds more than it keeps, the oldest
    /// item leaves and is returned. `None` goes in as nothing and gives nothing.
    pub fn shift(&mut self, item: Option<T>) -> (out: Option<T>)
        ensures
            (final(self)@.items, out) == shift_model(old(self)@.items, old(self)@.size, item),
            final(self)@.size == old(self)@.size,
            final(self)@.items.len() <= final(self)@.size,
    {
        proof {
            use_type_invariant(&*self);
        }
        let mut buffer: VecDeque<T> = VecDeque::new();
        std::mem::swap(&mut buffer, &mut self.buffer);
        let out = if let Some(item) = item {
            let ghost before = buffer@;
            buffer.push_front(item);
            assert(buffer@.reverse() =~= before.reverse().push(item));
            if buffer.len() > self.size {
                let ghost full = buffer@;
                let out = buffer.pop_back();
                assert(buffer@.reverse() =~= full.reverse().drop_first());
                out
            } else {
                None
            }
        } else {
            None
        };
        self.buffer = buffer;
        proof {
            use_type_invariant(&*self);
        }
        out
    }

    /// Takes the oldest item out of the buffer, or returns `None` when it is empty.
    pub fn drain(&mut self) -> (out: Option<T>)
        ensures
            old(self)@.items.len() == 0 ==> out is None && final(self)@ == old(self)@,
            old(self)@.items.len() > 0 ==> out == Some(old(self)@.items[0]) && final(self)@.items
                == old(self)@.items.drop_first(),
            final(self)@.size == old(self)@.size,
            final(self)@.items.len() <= final(self)@.size,
    {
        proof {
            use_type_invariant(&*self);
        }
        let mut buffer: VecDeque<T> = VecDeque::new();
        std::mem::swap(&mut buffer, &mut self.buffer);
        let ghost before = buffer@;
        let out = buffer.pop_back();
        proof {
            if before.len() > 0 {
                assert(buffer@.reverse() =~= before.reverse().drop_first());
            }
        }
        self.buffer = buffer;
        proof {
            use_type_invariant(&*self);
        }
        out
    }
}

/// A bounded queue loses nothing and reorders nothing: what a shift pushes out, followed
/// by what the queue then holds, is what it held followed by what went in; and it never
/// holds more than it keeps when it did not before.
pub proof fn lemma_shift_keeps_order<T>(items: Seq<T>, size: nat, item: Option<T>)
    ensures
        ({
            let (after, out) = shift_model(items, size, item);
            &&& opt_seq(out) + after == items + opt_seq(item)
            &&& items.len() <= size ==> after.len() <= size
        }),
{
    let (after, out) = shift_model(items, size, item);
    assert(opt_seq(out) + after =~= items + opt_seq(item));
}

/// Shifting the items of `inputs` one after another into a queue holding `items`: what
/// the queue then holds, and what was pushed out, in order.
pub open spec fn shift_all<T>(items: Seq<T>, size: nat, inputs: Seq<T>) -> (Seq<T>, Seq<T>)
    decreases inputs.len(),
{
    if inputs.len() == 0 {
        (items, Seq::empty())
    } else {
        let (held, out) = shift_all(items, size, inputs.drop_last());
        let (after, pushed) = shift_model(held, size, Some(inputs.last()));
        (after, out + opt_seq(pushed))
    }
}

/// A buffer is first in, first out over any number of shifts: what it pushes out,
/// followed by what it then holds (which draining gives oldest first), is what it held
/// followed by what went in.
pub proof fn lemma_buffer_is_fifo<T>(items: Seq<T>, size: nat, inputs: Seq<T>)
    ensures
        shift_all(items, size, inputs).1 + shift_all(items, size, inputs).0 == items + inputs,
    decreases inputs.len(),
{
    if inputs.len() > 0 {
        lemma_buffer_is_fifo(items, size, inputs.drop_last());
        let (held, out) = shift_all(items, size, inputs.drop_last());
        lemma_shift_keeps_order(held, size, Some(inputs.last()));
        let (after, pushed) = shift_model(held, size, Some(inputs.last()));
        assert(out + opt_seq(pushed) + after =~= out + (opt_seq(pushed) + after));
        assert(items + inputs.drop_last() + seq![inputs.last()] =~= items + inputs);
    }
}

/// The state of a filter stage as plain values: the chunks waiting ahead of the current
/// one (`pre`, oldest first), the chunk the filter works on (`current`), the chunks
/// already processed but not yet passed on (`post`, oldest first), and the room of the
/// two buffers.
pub struct StageView<T> {
    pub pre: Seq<T>,
    pub current: Option<T>,
    pub post: Seq<T>,
    pub pre_size: nat,
    pub post_size: nat,
}

impl<T> StageView<T> {
    /// All chunks held by the stage, in the order they arrived.
    pub open spec fn pending(self) -> Seq<T> {
        self.post + opt_seq(self.current) + self.pre
    }

    /// A chunk arrives: it enters the buffer ahead; the chunk that this pushes out of
    /// that buffer becomes the current one; the previous current one enters the buffer
    /// behind; and what that pushes out is passed on.
    pub open spec fn receive(self, item: T) -> (StageView<T>, Option<T>) {
        let (pre, current) = shift_model(self.pre, self.pre_size, Some(item));
        let (post, out) = shift_model(self.post, self.post_size, self.current);
        (StageView { pre, current, post, pre_size: self.pre_size, post_size: self.post_size }, out)
    }

    /// No more chunks arrive, and one still waits ahead: the oldest waiting chunk becomes
    /// the current one, the previous current one enters the buffer behind, and what that
    /// pushes out is passed on (the inner option). `None` when nothing waits ahead; the
    /// stage is then left as it is.
    pub open spec fn drain_step(self) -> (StageView<T>, Option<Option<T>>) {
        if self.pre.len() == 0 {
            (self, None)
        } else {
            let (post, out) = shift_model(self.post, self.post_size, self.current);
            (
                StageView {
                    pre: self.pre.drop_first(),
                    current: Some(self.pre[0]),
                    post,
                    pre_size: self.pre_size,
                    post_size: self.post_size,
                },
                Some(out),
            )
        }
    }

    /// What flushing the stage passes on: the processed chunks behind, then the current
    /// one.
    pub open spec fn flush_output(self) -> Seq<T> {
        self.post + opt_seq(self.current)
    }

    /// The stage after a filter `f` changed its current chunk, if it has one.
    pub open spec fn filtered(self, f: spec_fn(T) -> T) -> StageView<T> {
        StageView {
            current: match self.current {
                Some(c) => Some(f(c)),
                None => None,
            },
            ..self
        }
    }

    /// The stage after the chunks of `inputs` arrived one after another, and what it
    /// passed on meanwhile, in order.
    pub open spec fn run(self, inputs: Seq<T>) -> (StageView<T>, Seq<T>)
        decreases inputs.len(),
    {
        if inputs.len() == 0 {
            (self, Seq::empty())
        } else {
            let (before, passed) = self.run(inputs.drop_last());
            let (after, out) = before.receive(inputs.last());
            (after, passed + opt_seq(out))
        }
    }

    /// The chunks of `inputs` arrive one after another, and after each arrival the filter
    /// `f` runs on the current chunk, if any: the stage afterwards, what it passed on, and
    /// the chunks the filter was given, in order.
    pub open spec fn run_filtered(self, inputs: Seq<T>, f: spec_fn(T) -> T) -> (
        StageView<T>,
        Seq<T>,
        Seq<T>,
    )
        decreases inputs.len(),
    {
        if inputs.len() == 0 {
            (self, Seq::empty(), Seq::empty())
        } else {
            let (before, passed, seen) = self.run_filtered(inputs.drop_last(), f);
            let (after, out) = before.receive(inputs.last());
            (after.filtered(f), passed + opt_seq(out), seen + opt_seq(after.current))
        }
    }

    /// The stage is drained step by step, and after each step the filter `f` runs on the
    /// current chunk: the stage afterwards, what it passed on, and the chunks the filter
    /// was given, in order.
    pub open spec fn drain_filtered(self, f: spec_fn(T) -> T) -> (StageView<T>, Seq<T>, Seq<T>)
        decreases self.pre.len(),
    {
        if self.pre.len() == 0 {
            (self, Seq::empty(), Seq::empty())
        } else {
            let (after, out) = self.drain_step();
            let (last, passed, seen) = after.filtered(f).drain_filtered(f);
            (last, opt_seq(out.unwrap()) + passed, opt_seq(after.current) + seen)
        }
    }

    /// The stage holds nothing.
    pub open spec fn is_empty(self) -> bool {
        &&& self.pre.len() == 0
        &&& self.current is None
        &&& self.post.len() == 0
    }
}

/// Everything a stage with filter `f` passes on when the chunks of `inputs` arrive, the
/// filter running after each arrival, and the stage is then drained step by step, the
/// filter running after each step, and flushed.
pub open spec fn stage_output<T>(s: StageView<T>, inputs: Seq<T>, f: spec_fn(T) -> T) -> Seq<T> {
    let (arrived, passed, seen) = s.run_filtered(inputs, f);
    let (drained, passed_on_drain, seen_on_drain) = arrived.drain_filtered(f);
    passed + passed_on_drain + drained.flush_output()
}

/// The chunks the filter of a stage is given over the same course as in `stage_output`.
pub open spec fn stage_seen<T>(s: StageView<T>, inputs: Seq<T>, f: spec_fn(T) -> T) -> Seq<T> {
    let (arrived, passed, seen) = s.run_filtered(inputs, f);
    let (drained, passed_on_drain, seen_on_drain) = arrived.drain_filtered(f);
    seen + seen_on_drain
}

/// A stage loses, duplicates and reorders no chunk on arrival: what it passes on,
/// followed by what it then holds, is what it held followed by the new chunk.
pub proof fn lemma_receive_keeps_order<T>(s: StageView<T>, item: T)
    ensures
        ({
            let (after, out) = s.receive(item);
            opt_seq(out) + after.pending() == s.pending().push(item)
        }),
{
    lemma_shift_keeps_order(s.pre, s.pre_size, Some(item));
    lemma_shift_keeps_order(s.post, s.post_size, s.current);
    let (after, out) = s.receive(item);
    assert(opt_seq(out) + after.pending() =~= s.pending().push(item));
}

/// `opt_seq` of a filtered chunk is the filtered `opt_seq`.
proof fn lemma_opt_seq_map<T>(o: Option<T>, f: spec_fn(T) -> T)
    ensures
        opt_seq(o).map_values(f) == opt_seq(
            match o {
                Some(c) => Some(f(c)),
                None => None,
            },
        ),
{
    assert(opt_seq(o).map_values(f) =~= opt_seq(
        match o {
            Some(c) => Some(f(c)),
            None => None,
        },
    ));
}

/// While chunks arrive and the filter runs after each arrival, every chunk that leaves
/// the buffer ahead is given to the filter once, in order, and what the stage passes on
/// or holds behind is what it held behind followed by the filtered chunks.
pub proof fn lemma_run_filtered<T>(s: StageView<T>, inputs: Seq<T>, f: spec_fn(T) -> T)
    ensures
        ({
            let (after, passed, seen) = s.run_filtered(inputs, f);
            &&& seen + after.pre == s.pre + inputs
            &&& passed + after.flush_output() == s.flush_output() + seen.map_values(f)
            &&& after.pre_size == s.pre_size
            &&& after.post_size == s.post_size
        }),
    decreases inputs.len(),
{
    if inputs.len() > 0 {
        let x = inputs.last();
        lemma_run_filtered(s, inputs.drop_last(), f);
        let (before, passed, seen) = s.run_filtered(inputs.drop_last(), f);
        let (after, out) = before.receive(x);
        lemma_shift_keeps_order(before.pre, before.pre_size, Some(x));
        lemma_shift_keeps_order(before.post, before.post_size, before.current);
        lemma_opt_seq_map(after.current, f);
        let c = opt_seq(after.current);
        assert(seen + c + after.pre =~= seen + (c + after.pre));
        assert(s.pre + inputs.drop_last() + seq![x] =~= s.pre + inputs);
        assert((seen + c).map_values(f) =~= seen.map_values(f) + c.map_values(f));
        assert(passed + opt_seq(out) + after.filtered(f).flush_output() =~= passed + (opt_seq(
            out,
        ) + after.post) + c.map_values(f));
        assert(s.flush_output() + seen.map_values(f) + c.map_values(f) =~= s.flush_output() + (
        seen + c).map_values(f));
    }
}

/// While the stage is drained step by step and the filter runs after each step, every
/// chunk waiting ahead is given to the filter once, in order, and what the stage passes
/// on or holds behind is what it held behind followed by the filtered chunks.
pub proof fn lemma_drain_filtered<T>(s: StageView<T>, f: spec_fn(T) -> T)
    ensures
        ({
            let (last, passed, seen) = s.drain_filtered(f);
            &&& seen == s.pre
            &&& last.pre.len() == 0
            &&& passed + last.flush_output() == s.flush_output() + seen.map_values(f)
        }),
    decreases s.pre.len(),
{
    if s.pre.len() > 0 {
        let (after, out) = s.drain_step();
        let a = after.filtered(f);
        lemma_drain_filtered(a, f);
        let (last, passed, seen) = a.drain_filtered(f);
        lemma_shift_keeps_order(s.post, s.post_size, s.current);
        let p = s.pre[0];
        assert(seq![p] + s.pre.drop_first() =~= s.pre);
        assert(seq![p].map_values(f) =~= seq![f(p)]);
        assert((seq![p] + seen).map_values(f) =~= seq![f(p)] + seen.map_values(f));
        assert(opt_seq(out.unwrap()) + passed + last.flush_output() =~= opt_seq(out.unwrap()) + (
        passed + last.flush_output()));
        assert(opt_seq(out.unwrap()) + (a.post + seq![f(p)] + seen.map_values(f)) =~= (opt_seq(
            out.unwrap(),
        ) + a.post) + (seq![f(p)] + seen.map_values(f)));
    }
}

/// Every chunk passes through a filter stage's filter exactly once, in order: when the
/// chunks of `inputs` arrive at an empty stage, the filter running on the current chunk
/// after each arrival and after each drain step, the filter is given exactly the chunks
/// of `inputs`, in order, and the stage passes on exactly the filtered chunks, in order.
pub proof fn lemma_stage_filters_every_chunk_once<T>(
    s: StageView<T>,
    inputs: Seq<T>,
    f: spec_fn(T) -> T,
)
    requires
        s.is_empty(),
    ensures
        stage_seen(s, inputs, f) == inputs,
        stage_output(s, inputs, f) == inputs.map_values(f),
{
    lemma_run_filtered(s, inputs, f);
    let (arrived, passed, seen) = s.run_filtered(inputs, f);
    lemma_drain_filtered(arrived, f);
    let (drained, passed_on_drain, seen_on_drain) = arrived.drain_filtered(f);
    assert(s.pre + inputs =~= inputs);
    assert(s.flush_output() =~= Seq::<T>::empty());
    assert(seen + seen_on_drain =~= inputs);
    assert(passed + passed_on_drain + drained.flush_output() =~= passed + (passed_on_drain
        + drained.flush_output()));
    assert(passed + (arrived.flush_output() + seen_on_drain.map_values(f)) =~= (passed
        + arrived.flush_output()) + seen_on_drain.map_values(f));
    assert(Seq::<T>::empty() + seen.map_values(f) =~= seen.map_values(f));
    assert(seen.map_values(f) + seen_on_drain.map_values(f) =~= (seen + seen_on_drain).map_values(
        f,
    ));
}

/// Applying the filters of `filters` to `x`, first to last.
pub open spec fn apply_all<T>(filters: Seq<spec_fn(T) -> T>, x: T) -> T
    decreases filters.len(),
{
    if filters.len() == 0 {
        x
    } else {
        apply_all(filters.drop_first(), (filters[0])(x))
    }
}

/// What a chain of stages with the given filters passes on when `inputs` enter the first
/// stage and each stage's output enters the next one.
pub open spec fn chain_output<T>(
    stages: Seq<StageView<T>>,
    filters: Seq<spec_fn(T) -> T>,
    inputs: Seq<T>,
) -> Seq<T>
    decreases stages.len(),
{
    if stages.len() == 0 || filters.len() == 0 {
        inputs
    } else {
        chain_output(
            stages.drop_first(),
            filters.drop_first(),
            stage_output(stages[0], inputs, filters[0]),
        )
    }
}

/// A chain of empty stages hands its writer every chunk its reader produced, each once
/// and in order, after every filter of the chain, first to last, ran on it once.
pub proof fn lemma_chain_filters_every_chunk<T>(
    stages: Seq<StageView<T>>,
    filters: Seq<spec_fn(T) -> T>,
    inputs: Seq<T>,
)
    requires
        stages.len() == filters.len(),
        forall|i: int| 0 <= i < stages.len() ==> (#[trigger] stages[i]).is_empty(),
    ensures
        chain_output(stages, filters, inputs) == inputs.map_values(|x: T| apply_all(filters, x)),
    decreases stages.len(),
{
    if stages.len() == 0 {
        assert(inputs.map_values(|x: T| apply_all(filters, x)) =~= inputs);
    } else {
        let f = filters[0];
        lemma_stage_filters_every_chunk_once(stages[0], inputs, f);
        assert forall|i: int| 0 <= i < stages.drop_first().len() implies (
        #[trigger] stages.drop_first()[i]).is_empty() by {
            assert(stages.drop_first()[i] == stages[i + 1]);
        }
        let mid = inputs.map_values(f);
        lemma_chain_filters_every_chunk(stages.drop_first(), filters.drop_first(), mid);
        assert(mid.map_values(|x: T| apply_all(filters.drop_first(), x)) =~= inputs.map_values(
            |x: T| apply_all(filters, x),
        ));
    }
}

/// With one chunk of room on each side, once two or more chunks have arrived at an empty
/// stage, the current chunk is the last but one to arrive, the last one waits ahead of
/// it, and the one before it (if any) waits behind it.
pub proof fn lemma_window<T>(s: StageView<T>, inputs: Seq<T>)
    requires
        s.is_empty(),
        s.pre_size == 1,
        s.post_size == 1,
        inputs.len() >= 2,
    ensures
        ({
            let after = s.run(inputs).0;
            let n = inputs.len();
            &&& after.current == Some(inputs[n - 2])
            &&& after.pre == seq![inputs[n - 1]]
            &&& n >= 3 ==> after.post == seq![inputs[n - 3]]
            &&& n == 2 ==> after.post.len() == 0
            &&& after.pre_size == 1
            &&& after.post_size == 1
        }),
    decreases inputs.len(),
{
    let n = inputs.len();
    let prefix = inputs.drop_last();
    if n == 2 {
        assert(prefix.drop_last() =~= Seq::<T>::empty());
        assert(s.run(prefix.drop_last()) == (s, Seq::<T>::empty()));
        assert(s.pre.push(inputs[0]) =~= seq![inputs[0]]);
    } else {
        lemma_window(s, prefix);
        assert(prefix[n - 3] == inputs[n - 3]);
    }
    let (before, passed) = s.run(prefix);
    assert(before.pre.push(inputs.last()).drop_first() =~= seq![inputs[n - 1]]);
    if n >= 4 {
        assert(before.post.push(inputs[n - 3]).drop_first() =~= seq![inputs[n - 3]]);
    } else if n == 3 {
        assert(before.post.push(inputs[n - 3]) =~= seq![inputs[n - 3]]);
    }
}

/// The windowing state machine that runs one filter of a chain. Chunks arrive one by
/// one; a filter works on the current chunk while the next one waits in the buffer
/// ahead and the previous one in the buffer behind; chunks leave in the order they came.
/// Once no more chunks arrive, the stage is drained step by step, so that the filter
/// gets its turn on the chunks still waiting ahead, and then flushed.
pub struct Stage<T> {
    pre_buffer: Buffer<T>,
    current: Option<T>,
    post_buffer: Buffer<T>,
}

impl<T> View for Stage<T> {
    type V = StageView<T>;

    closed spec fn view(&self) -> StageView<T> {
        StageView {
            pre: self.pre_buffer@.items,
            current: self.current,
            post: self.post_buffer@.items,
            pre_size: self.pre_buffer@.size,
            post_size: self.post_buffer@.size,
        }
    }
}

impl<T> Stage<T> {
    /// An empty stage that keeps one chunk ahead of and one behind the current one.
    pub fn new() -> (s: Self)
        ensures
            s@.is_empty(),
            s@.pre_size == 1,
            s@.post_size == 1,
    {
        Stage { pre_buffer: Buffer::new(1), current: None, post_buffer: Buffer::new(1) }
    }

    /// A chunk arrives; returns the chunk to pass on, if any. The filter is then due to
    /// run when the stage has a current chunk.
    pub fn receive(&mut self, item: T) -> (out: Option<T>)
        ensures
            (final(self)@, out) == old(self)@.receive(item),
    {
        let mut chunk = self.pre_buffer.shift(Some(item));
        std::mem::swap(&mut chunk, &mut self.current);
        self.post_buffer.shift(chunk)
    }

    /// Whether the stage has a current chunk for the filter to work on.
    pub fn has_current(&self) -> (b: bool)
        ensures
            b == (self@.current is Some),
    {
        self.current.is_some()
    }

    /// The current chunk, for the filter to change in place.
    pub fn current_mut(&mut self) -> (c: &mut T)
        requires
            old(self)@.current is Some,
        ensures
            *c == old(self)@.current.unwrap(),
            final(self)@ == (StageView { current: Some(*final(c)), ..old(self)@ }),
    {
        self.current.as_mut().unwrap()
    }

    /// No more chunks arrive: moves the oldest chunk waiting ahead into the current
    /// place, and returns `Some` of the chunk to pass on, if any; `None` when no chunk
    /// waits ahead. The filter is then due to run on the new current chunk.
    pub fn drain_step(&mut self) -> (out: Option<Option<T>>)
        ensures
            (final(self)@, out) == old(self)@.drain_step(),
    {
        match self.pre_buffer.drain() {
            None => None,
            Some(chunk) => {
                let mut chunk = Some(chunk);
                std::mem::swap(&mut chunk, &mut self.current);
                Some(self.post_buffer.shift(chunk))
            },
        }
    }

    /// Passes on, in order, the chunks behind the current one and then the current one,
    /// leaving none of them in the stage.
    pub fn flush(&mut self) -> (out: Vec<T>)
        ensures
            out@ == old(self)@.flush_output(),
            final(self)@ == (StageView {
                current: None,
                post: Seq::<T>::empty(),
                ..old(self)@
            }),
    {
        let mut out: Vec<T> = Vec::new();
        let last = self.current.take();
        if let Some(c) = self.post_buffer.shift(last) {
            out.push(c);
        }
        proof {
            lemma_shift_keeps_order(old(self)@.post, old(self)@.post_size, old(self)@.current);
        }
        loop
            invariant_except_break
                out@ + self@.post == old(self)@.flush_output(),
                self@.current is None,
                self@.pre == old(self)@.pre,
                self@.pre_size == old(self)@.pre_size,
                self@.post_size == old(self)@.post_size,
            ensures
                out@ == old(self)@.flush_output(),
                self@ == (StageView {
                    current: None,
                    post: Seq::<T>::empty(),
                    ..old(self)@
                }),
            decreases self@.post.len(),
        {
            let ghost before = self@;
            let ghost out_before = out@;
            match self.post_buffer.drain() {
                None => {
                    assert(out@ + self@.post =~= out@);
                    assert(self@.post =~= Seq::<T>::empty());
                    break ;
                },
                Some(c) => {
                    out.push(c);
                    assert(out@ + self@.post =~= out_before + before.post);
                },
            }
        }
        out
    }
}

} // verus!
