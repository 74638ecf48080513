use crate::buffer::{buffer_bytes, buffer_from, bytes_of};
use crate::marker::{
    all_markers, find_marker, first_marker, lemma_marker_from_is_first, lemma_markers_upto,
    marker_positions,
};
use crate::pixel::{channels, decode565, decoded, PixelLayout};
use crate::split::{
    audio_region, audio_samples, le_i16, lemma_full_field_regions, lower_region, periods,
    split_capture_buffer, upper_region,
};
use bytes::BytesMut;
use vstd::prelude::*;
use vstd::slice::slice_subrange;

verus! {

/// Rotating slots kept by default.
pub const NUM_BUFFERS: usize = 20;

/// Bytes in one bulk transfer of the capture stream.
pub const TRANSFER_SIZE: usize = 0x4000;

/// Bytes of the periods of one complete field (801 periods of 496 bytes).
pub const FIELD_BYTES: usize = 801 * 496;

/// Default slot capacity: a complete field and one transfer of slack for the
/// bytes that trail it before the next marker.
pub const SLOT_CAPACITY: usize = FIELD_BYTES + TRANSFER_SIZE;

/// `x` when it fits a slot of capacity `cap`, else nothing.
pub open spec fn seed(x: Seq<u8>, cap: nat) -> Seq<u8> {
    if x.len() <= cap {
        x
    } else {
        Seq::empty()
    }
}

/// The field span that chunk `s` completes, given the bytes `active` gathered
/// so far: the gathered bytes and those before the chunk's first marker, when
/// a field was open and they fit the slot.
pub open spec fn completed_field(active: Seq<u8>, s: Seq<u8>, cap: nat) -> Option<Seq<u8>> {
    match first_marker(s) {
        Some(st) => if active.len() > 0 && active.len() + st <= cap {
            Some(active + s.subrange(0, st as int))
        } else {
            None
        },
        None => None,
    }
}

/// The bytes gathered after chunk `s`: a marker opens a new field from the
/// marker on; without one, an open field takes the whole chunk, unless that
/// overruns the slot, which drops the field.
pub open spec fn next_active(active: Seq<u8>, s: Seq<u8>, cap: nat) -> Seq<u8> {
    match first_marker(s) {
        Some(st) => seed(s.subrange(st as int, s.len() as int), cap),
        None => if active.len() == 0 {
            Seq::empty()
        } else if active.len() + s.len() <= cap {
            active + s
        } else {
            Seq::empty()
        },
    }
}

/// Chunk `s` moves the cursor to the next slot: it closes an open field, or
/// overruns the slot.
pub open spec fn advances(active: Seq<u8>, s: Seq<u8>, cap: nat) -> bool {
    active.len() > 0 && match first_marker(s) {
        Some(_) => true,
        None => active.len() + s.len() > cap,
    }
}

/// The slot after `c` among `n`, wrapping to the first.
pub open spec fn next_slot(c: nat, n: nat) -> nat {
    if c + 1 >= n {
        0
    } else {
        c + 1
    }
}

/// `r` holds the little-endian signed samples of `data`.
pub open spec fn samples_of(r: Seq<i16>, data: Seq<u8>) -> bool {
    &&& r.len() == data.len() / 2
    &&& forall|i: int| 0 <= i < r.len() ==> #[trigger] r[i] as int == le_i16(data[2 * i], data[2 * i + 1])
}

/// One reconstructed field: its audio samples and both decoded screens.
pub struct CaptureField {
    pub audio: Vec<i16>,
    pub upper: BytesMut,
    pub lower: BytesMut,
}

/// `f` is the field decoded from the span `span` in `layout`.
pub open spec fn field_of(f: CaptureField, span: Seq<u8>, layout: PixelLayout) -> bool {
    &&& samples_of(f.audio@, audio_region(span))
    &&& bytes_of(f.upper) == decoded(upper_region(span), layout)
    &&& bytes_of(f.lower) == decoded(lower_region(span), layout)
}

/// Both screen regions of `span` have their fixed sizes: 400 by 240 and
/// 320 by 240 pixels of two bytes.
pub open spec fn screens_fit(span: Seq<u8>) -> bool {
    upper_region(span).len() == 400 * 240 * 2 && lower_region(span).len() == 320 * 240 * 2
}

/// `f` carries whole screens: 400 by 240 and 320 by 240 pixels in `layout`.
pub open spec fn full_screens(f: CaptureField, layout: PixelLayout) -> bool {
    bytes_of(f.upper).len() == 400 * 240 * channels(layout) && bytes_of(f.lower).len() == 320 * 240
        * channels(layout)
}

/// A field decoded from a span of exactly 801 complete periods carries both
/// whole screens, 400 by 240 and 320 by 240 pixels, and 801 * 8 audio samples.
pub proof fn lemma_full_field_sizes(f: CaptureField, span: Seq<u8>, layout: PixelLayout)
    requires
        field_of(f, span, layout),
        periods(span) == 801,
    ensures
        bytes_of(f.upper).len() == 400 * 240 * channels(layout),
        bytes_of(f.lower).len() == 320 * 240 * channels(layout),
        f.audio@.len() == 801 * 8,
{
    lemma_full_field_regions(span);
}

/// Splits a field span and decodes its audio and both screens; a span whose
/// screen regions do not have the fixed screen sizes is dropped (`None`).
pub fn decode_field(span: &BytesMut, layout: PixelLayout) -> (r: Option<CaptureField>)
    ensures
        r is Some <==> screens_fit(bytes_of(*span)),
        r is Some ==> field_of(r->Some_0, bytes_of(*span), layout),
        r is Some ==> full_screens(r->Some_0, layout),
{
    let (upper_raw, lower_raw, sound_raw) = split_capture_buffer(span);
    let upper_v = match decode565(buffer_bytes(&upper_raw), 400, 240, layout) {
        Ok(v) => v,
        Err(_) => return None,
    };
    let lower_v = match decode565(buffer_bytes(&lower_raw), 320, 240, layout) {
        Ok(v) => v,
        Err(_) => return None,
    };
    let audio = audio_samples(buffer_bytes(&sound_raw));
    let upper = buffer_from(upper_v.as_slice());
    let lower = buffer_from(lower_v.as_slice());
    Some(CaptureField { audio, upper, lower })
}

/// The rotating set of accumulation slots and the cursor of the one being
/// filled, with the field-assembly rule applied to each arriving chunk.
pub struct CaptureHandler {
    buffers: Vec<BytesMut>,
    current_buffer: usize,
    slot_capacity: usize,
    layout: PixelLayout,
}

impl CaptureHandler {
    /// Number of slots.
    pub closed spec fn num_slots(&self) -> nat {
        self.buffers@.len()
    }

    /// Index of the slot being filled.
    pub closed spec fn cursor(&self) -> nat {
        self.current_buffer as nat
    }

    /// Most bytes a slot may hold.
    pub closed spec fn capacity(&self) -> nat {
        self.slot_capacity as nat
    }

    /// Layout of the decoded screens.
    pub closed spec fn pixel_layout(&self) -> PixelLayout {
        self.layout
    }

    /// Bytes held by slot `i`.
    pub closed spec fn slot(&self, i: int) -> Seq<u8> {
        bytes_of(self.buffers@[i])
    }

    /// Bytes of the field being gathered.
    pub open spec fn active(&self) -> Seq<u8> {
        self.slot(self.cursor() as int)
    }

    /// At least one slot, the cursor on one of them, and every slot within
    /// capacity.
    pub open spec fn wf(&self) -> bool {
        &&& self.num_slots() >= 1
        &&& self.cursor() < self.num_slots()
        &&& self.capacity() <= isize::MAX
        &&& forall|i: int| 0 <= i < self.num_slots() ==> #[trigger] self.slot(i).len() <= self.capacity()
    }

    /// A handler of `num_buffers` empty slots of `slot_capacity` bytes each.
    fn build(num_buffers: usize, slot_capacity: usize, layout: PixelLayout) -> (h: Self)
        requires
            num_buffers >= 1,
            slot_capacity <= isize::MAX,
        ensures
            h.wf(),
            h.num_slots() == num_buffers,
            h.capacity() == slot_capacity,
            h.pixel_layout() == layout,
            h.cursor() == 0,
            forall|i: int| 0 <= i < num_buffers ==> #[trigger] h.slot(i) == Seq::<u8>::empty(),
    {
        let mut buffers: Vec<BytesMut> = Vec::new();
        let mut i: usize = 0;
        while i < num_buffers
            invariant
                i <= num_buffers,
                slot_capacity <= isize::MAX,
                buffers@.len() == i,
                forall|j: int| 0 <= j < i ==> bytes_of(#[trigger] buffers@[j]) == Seq::<u8>::empty(),
            decreases num_buffers - i,
        {
            buffers.push(BytesMut::with_capacity(slot_capacity));
            i = i + 1;
        }
        CaptureHandler { buffers, current_buffer: 0, slot_capacity, layout }
    }

    /// A handler of `num_buffers` empty slots of `slot_capacity` bytes each;
    /// `None` when there is no slot or the capacity exceeds `isize::MAX`.
    pub fn with_config(num_buffers: usize, slot_capacity: usize, layout: PixelLayout) -> (r: Option<
        Self,
    >)
        ensures
            r is Some <==> (num_buffers >= 1 && slot_capacity <= isize::MAX),
            r is Some ==> {
                let h = r->Some_0;
                &&& h.wf()
                &&& h.num_slots() == num_buffers
                &&& h.capacity() == slot_capacity
                &&& h.pixel_layout() == layout
                &&& h.cursor() == 0
                &&& forall|i: int| 0 <= i < num_buffers ==> #[trigger] h.slot(i) == Seq::<u8>::empty()
            },
    {
        if num_buffers == 0 || slot_capacity > isize::MAX as usize {
            None
        } else {
            Some(Self::build(num_buffers, slot_capacity, layout))
        }
    }

    /// A handler with the default slot count and capacity.
    pub fn new(layout: PixelLayout) -> (r: Self)
        ensures
            r.wf(),
            r.num_slots() == NUM_BUFFERS,
            r.capacity() == SLOT_CAPACITY,
            r.pixel_layout() == layout,
            r.cursor() == 0,
            r.active() == Seq::<u8>::empty(),
    {
        let h = Self::build(NUM_BUFFERS, SLOT_CAPACITY, layout);
        assert(h.slot(0) == Seq::<u8>::empty());
        h
    }

    /// Index of the slot being filled.
    pub fn current_buffer(&self) -> (r: usize)
        ensures
            r == self.cursor(),
    {
        self.current_buffer
    }

    /// Number of bytes gathered for the open field.
    pub fn active_len(&self) -> (r: usize)
        requires
            self.wf(),
        ensures
            r == self.active().len(),
    {
        self.buffers[self.current_buffer].len()
    }

    /// Moves the cursor to the next slot, wrapping, and empties that slot.
    fn advance(&mut self)
        requires
            old(self).wf(),
        ensures
            final(self).wf(),
            final(self).num_slots() == old(self).num_slots(),
            final(self).capacity() == old(self).capacity(),
            final(self).pixel_layout() == old(self).pixel_layout(),
            final(self).cursor() == next_slot(old(self).cursor(), old(self).num_slots()),
            final(self).active() == Seq::<u8>::empty(),
            forall|i: int|
                0 <= i < old(self).num_slots() && i != final(self).cursor()
                    ==> #[trigger] final(self).slot(i) == old(self).slot(i),
    {
        let n = self.buffers.len();
        let next = if self.current_buffer + 1 >= n {
            0
        } else {
            self.current_buffer + 1
        };
        self.current_buffer = next;
        self.buffers[next].clear();
        assert forall|i: int| 0 <= i < self.num_slots() implies #[trigger] self.slot(i).len()
            <= self.capacity() by {
            if i != next {
                assert(self.slot(i) == old(self).slot(i));
            }
        }
    }

    /// Starts the active (empty) slot with `x` when it fits.
    fn seed_active(&mut self, x: &[u8])
        requires
            old(self).wf(),
            old(self).active() == Seq::<u8>::empty(),
        ensures
            final(self).wf(),
            final(self).num_slots() == old(self).num_slots(),
            final(self).capacity() == old(self).capacity(),
            final(self).pixel_layout() == old(self).pixel_layout(),
            final(self).cursor() == old(self).cursor(),
            final(self).active() == seed(x@, old(self).capacity()),
            forall|i: int|
                0 <= i < old(self).num_slots() && i != final(self).cursor()
                    ==> #[trigger] final(self).slot(i) == old(self).slot(i),
    {
        if x.len() <= self.slot_capacity {
            let cur = self.current_buffer;
            self.buffers[cur].extend_from_slice(x);
            assert(bytes_of(self.buffers@[cur as int]) =~= x@);
            assert forall|i: int| 0 <= i < self.num_slots() implies #[trigger] self.slot(i).len()
                <= self.capacity() by {
                if i != cur {
                    assert(self.slot(i) == old(self).slot(i));
                }
            }
        }
    }

    /// Takes one completed bulk chunk: gathers its bytes into the active slot
    /// by the assembly rule and, when the chunk closes a field whose screens
    /// have their fixed sizes, returns that field decoded. The slot left
    /// behind keeps the closed span, or is unchanged when the field overran.
    pub fn transfer_finished(&mut self, chunk: &[u8]) -> (r: Option<CaptureField>)
        requires
            old(self).wf(),
        ensures
            final(self).wf(),
            final(self).num_slots() == old(self).num_slots(),
            final(self).capacity() == old(self).capacity(),
            final(self).pixel_layout() == old(self).pixel_layout(),
            final(self).active() == next_active(old(self).active(), chunk@, old(self).capacity()),
            final(self).cursor() == if advances(old(self).active(), chunk@, old(self).capacity()) {
                next_slot(old(self).cursor(), old(self).num_slots())
            } else {
                old(self).cursor()
            },
            r is Some <==> match completed_field(old(self).active(), chunk@, old(self).capacity()) {
                Some(span) => screens_fit(span),
                None => false,
            },
            r is Some ==> field_of(
                r->Some_0,
                completed_field(old(self).active(), chunk@, old(self).capacity())->Some_0,
                old(self).pixel_layout(),
            ),
            r is Some ==> full_screens(r->Some_0, old(self).pixel_layout()),
            forall|i: int|
                0 <= i < old(self).num_slots() && i != old(self).cursor() && i != final(self).cursor()
                    ==> #[trigger] final(self).slot(i) == old(self).slot(i),
            final(self).cursor() != old(self).cursor() ==> final(self).slot(old(self).cursor() as int)
                == match completed_field(old(self).active(), chunk@, old(self).capacity()) {
                Some(span) => span,
                None => old(self).active(),
            },
    {
        let len = chunk.len();
        let start = find_marker(chunk);
        let cur = self.current_buffer;
        let active_len = self.buffers[cur].len();
        let ghost active = self.active();
        let ghost cap = self.capacity();
        proof {
            lemma_marker_from_is_first(chunk@, 0);
        }
        match start {
            Some(st) => {
                let tail = slice_subrange(chunk, st, len);
                if active_len == 0 {
                    assert(self.active() =~= Seq::<u8>::empty());
                    self.seed_active(tail);
                    None
                } else if st <= self.slot_capacity - active_len {
                    let head = slice_subrange(chunk, 0, st);
                    self.buffers[cur].extend_from_slice(head);
                    assert forall|i: int| 0 <= i < self.num_slots() implies #[trigger] self.slot(
                        i,
                    ).len() <= self.capacity() by {
                        if i != cur {
                            assert(self.slot(i) == old(self).slot(i));
                        }
                    }
                    let field = decode_field(&self.buffers[cur], self.layout);
                    self.advance();
                    self.seed_active(tail);
                    field
                } else {
                    self.advance();
                    self.seed_active(tail);
                    None
                }
            },
            None => {
                if active_len == 0 {
                    None
                } else if len <= self.slot_capacity - active_len {
                    self.buffers[cur].extend_from_slice(chunk);
                    assert forall|i: int| 0 <= i < self.num_slots() implies #[trigger] self.slot(
                        i,
                    ).len() <= self.capacity() by {
                        if i != cur {
                            assert(self.slot(i) == old(self).slot(i));
                        }
                    }
                    None
                } else {
                    self.advance();
                    None
                }
            },
        }
    }
}

/// Number of fields a stream holding `k` markers yields.
pub open spec fn fields_between(k: nat) -> nat {
    if k == 0 {
        0
    } else {
        (k - 1) as nat
    }
}

/// The bytes of `data` from its `i`-th marker up to the next one.
pub open spec fn marker_span(data: Seq<u8>, i: int) -> Seq<u8> {
    data.subrange(all_markers(data)[i], all_markers(data)[i + 1])
}

/// Among the first `n` spans between consecutive markers, those whose screens
/// have their fixed sizes, in stream order.
pub open spec fn fitting_spans_upto(data: Seq<u8>, n: nat) -> Seq<Seq<u8>>
    decreases n,
{
    if n == 0 {
        Seq::empty()
    } else if screens_fit(marker_span(data, n - 1)) {
        fitting_spans_upto(data, (n - 1) as nat).push(marker_span(data, n - 1))
    } else {
        fitting_spans_upto(data, (n - 1) as nat)
    }
}

/// Every span between consecutive markers of `data` whose screens have their
/// fixed sizes, in stream order.
pub open spec fn fitting_spans(data: Seq<u8>) -> Seq<Seq<u8>> {
    fitting_spans_upto(data, fields_between(all_markers(data).len()))
}

/// Reconstructs the fields of a captured byte stream: one for each pair of
/// consecutive markers, spanning from the first of them up to the second;
/// a span whose screens do not have their fixed sizes is skipped.
pub fn parse_image_data(data: &[u8], layout: PixelLayout) -> (r: Vec<CaptureField>)
    ensures
        r@.len() == fitting_spans(data@).len(),
        forall|i: int|
            0 <= i < r@.len() ==> field_of(#[trigger] r@[i], fitting_spans(data@)[i], layout)
                && full_screens(r@[i], layout),
{
    let positions = marker_positions(data);
    let ghost m = all_markers(data@);
    proof {
        lemma_markers_upto(data@, data@.len());
    }
    let mut r: Vec<CaptureField> = Vec::new();
    if positions.len() == 0 {
        return r;
    }
    let count = positions.len() - 1;
    let mut i: usize = 0;
    while i < count
        invariant
            count + 1 == positions@.len(),
            positions@.len() == m.len(),
            m == all_markers(data@),
            forall|a: int| 0 <= a < positions@.len() ==> #[trigger] positions@[a] as int == m[a],
            forall|a: int, b: int| 0 <= a < b < m.len() ==> m[a] < m[b],
            forall|a: int| 0 <= a < m.len() ==> 0 <= #[trigger] m[a] < data@.len(),
            i <= count,
            r@.len() == fitting_spans_upto(data@, i as nat).len(),
            forall|j: int|
                0 <= j < r@.len() ==> field_of(
                    #[trigger] r@[j],
                    fitting_spans_upto(data@, i as nat)[j],
                    layout,
                ) && full_screens(r@[j], layout),
        decreases count - i,
    {
        let start = positions[i];
        let end = positions[i + 1];
        assert(m[i as int] < m[i + 1]);
        let span = buffer_from(slice_subrange(data, start, end));
        assert(bytes_of(span) == marker_span(data@, i as int));
        let ghost before = r@;
        match decode_field(&span, layout) {
            Some(field) => {
                r.push(field);
                assert forall|j: int| 0 <= j < before.len() implies r@[j] == before[j] by {}
            },
            None => {},
        }
        i = i + 1;
    }
    r
}

/// The bytes gathered after feeding `chunks` in order from `active`.
pub open spec fn feed_active(active: Seq<u8>, chunks: Seq<Seq<u8>>, cap: nat) -> Seq<u8>
    decreases chunks.len(),
{
    if chunks.len() == 0 {
        active
    } else {
        feed_active(next_active(active, chunks[0], cap), chunks.drop_first(), cap)
    }
}

/// The field spans completed, in order, while feeding `chunks` from `active`.
pub open spec fn feed_fields(active: Seq<u8>, chunks: Seq<Seq<u8>>, cap: nat) -> Seq<Seq<u8>>
    decreases chunks.len(),
{
    if chunks.len() == 0 {
        Seq::empty()
    } else {
        let rest = feed_fields(next_active(active, chunks[0], cap), chunks.drop_first(), cap);
        match completed_field(active, chunks[0], cap) {
            Some(f) => seq![f] + rest,
            None => rest,
        }
    }
}

/// How many times the cursor moves while feeding `chunks` from `active`.
pub open spec fn feed_advances(active: Seq<u8>, chunks: Seq<Seq<u8>>, cap: nat) -> nat
    decreases chunks.len(),
{
    if chunks.len() == 0 {
        0
    } else {
        (if advances(active, chunks[0], cap) {
            1nat
        } else {
            0nat
        }) + feed_advances(next_active(active, chunks[0], cap), chunks.drop_first(), cap)
    }
}

/// Number of chunks in which a marker is found.
pub open spec fn marked_chunks(chunks: Seq<Seq<u8>>) -> nat
    decreases chunks.len(),
{
    if chunks.len() == 0 {
        0
    } else {
        (if first_marker(chunks[0]) is Some {
            1nat
        } else {
            0nat
        }) + marked_chunks(chunks.drop_first())
    }
}

/// Chunk `s` overruns the slot: the open field, or the new one that a marker
/// would open, does not fit the capacity.
pub open spec fn overruns(active: Seq<u8>, s: Seq<u8>, cap: nat) -> bool {
    match first_marker(s) {
        Some(st) => (active.len() > 0 && active.len() + st > cap) || s.len() - st > cap,
        None => active.len() > 0 && active.len() + s.len() > cap,
    }
}

/// No chunk of `chunks`, fed in order from `active`, overruns the slot.
pub open spec fn never_overruns(active: Seq<u8>, chunks: Seq<Seq<u8>>, cap: nat) -> bool
    decreases chunks.len(),
{
    if chunks.len() == 0 {
        true
    } else {
        !overruns(active, chunks[0], cap) && never_overruns(
            next_active(active, chunks[0], cap),
            chunks.drop_first(),
            cap,
        )
    }
}

proof fn lemma_fields_from(active: Seq<u8>, chunks: Seq<Seq<u8>>, cap: nat)
    requires
        never_overruns(active, chunks, cap),
    ensures
        feed_fields(active, chunks, cap).len() == if active.len() == 0 {
            fields_between(marked_chunks(chunks))
        } else {
            marked_chunks(chunks)
        },
        feed_active(active, chunks, cap).len() > 0 <==> (active.len() > 0 || marked_chunks(chunks)
            > 0),
    decreases chunks.len(),
{
    if chunks.len() > 0 {
        let s = chunks[0];
        let rest = chunks.drop_first();
        lemma_marker_from_is_first(s, 0);
        let next = next_active(active, s, cap);
        lemma_fields_from(next, rest, cap);
    }
}

proof fn lemma_within_slot_never_overruns(active: Seq<u8>, chunks: Seq<Seq<u8>>, cap: nat)
    requires
        active.len() + chunks.flatten().len() <= cap,
    ensures
        never_overruns(active, chunks, cap),
    decreases chunks.len(),
{
    if chunks.len() > 0 {
        let s = chunks[0];
        let rest = chunks.drop_first();
        assert(chunks.flatten() == s + rest.flatten());
        lemma_marker_from_is_first(s, 0);
        let next = next_active(active, s, cap);
        assert(next.len() <= active.len() + s.len());
        lemma_within_slot_never_overruns(next, rest, cap);
    }
}

/// Fed a stream in which no chunk overruns a slot, the assembler closes one
/// field span for each chunk holding a marker after the first such chunk; the
/// last marker leaves a field open, which is not emitted.
pub proof fn lemma_one_field_per_marker(chunks: Seq<Seq<u8>>, cap: nat)
    requires
        never_overruns(Seq::empty(), chunks, cap),
    ensures
        feed_fields(Seq::empty(), chunks, cap).len() == fields_between(marked_chunks(chunks)),
        marked_chunks(chunks) > 0 ==> feed_active(Seq::empty(), chunks, cap).len() > 0,
{
    lemma_fields_from(Seq::empty(), chunks, cap);
}

/// A stream whose chunks together fit one slot never overruns it.
pub proof fn lemma_stream_within_slot(chunks: Seq<Seq<u8>>, cap: nat)
    requires
        chunks.flatten().len() <= cap,
    ensures
        never_overruns(Seq::empty(), chunks, cap),
{
    lemma_within_slot_never_overruns(Seq::empty(), chunks, cap);
}

/// Every position of `p` moved by `d`.
pub open spec fn shift(p: Seq<int>, d: int) -> Seq<int> {
    Seq::new(p.len(), |i: int| p[i] + d)
}

/// Positions, in the concatenation of `chunks`, of the first marker of each
/// chunk that holds one, in stream order.
pub open spec fn found_markers(chunks: Seq<Seq<u8>>) -> Seq<int>
    decreases chunks.len(),
{
    if chunks.len() == 0 {
        Seq::empty()
    } else {
        let rest = shift(found_markers(chunks.drop_first()), chunks[0].len() as int);
        match first_marker(chunks[0]) {
            Some(st) => seq![st as int] + rest,
            None => rest,
        }
    }
}

/// The bytes of `s` between each position of `p` and the next.
pub open spec fn spans_between(s: Seq<u8>, p: Seq<int>) -> Seq<Seq<u8>> {
    Seq::new(fields_between(p.len()), |i: int| s.subrange(p[i], p[i + 1]))
}

/// The positions at which fields open when `chunks` are fed from `active`:
/// the start of the open field, if any, then each found marker.
pub open spec fn open_positions(active: Seq<u8>, chunks: Seq<Seq<u8>>) -> Seq<int> {
    (if active.len() > 0 {
        seq![0int]
    } else {
        Seq::<int>::empty()
    }) + shift(found_markers(chunks), active.len() as int)
}

/// Positions in `p` rise strictly and lie within `0..n`.
pub open spec fn rising_within(p: Seq<int>, n: int) -> bool {
    &&& forall|i: int, j: int| 0 <= i < j < p.len() ==> p[i] < p[j]
    &&& forall|i: int| 0 <= i < p.len() ==> 0 <= #[trigger] p[i] < n
}

proof fn lemma_found_markers_rise(chunks: Seq<Seq<u8>>)
    ensures
        rising_within(found_markers(chunks), chunks.flatten().len() as int),
    decreases chunks.len(),
{
    if chunks.len() > 0 {
        let s = chunks[0];
        let rest = chunks.drop_first();
        assert(chunks.flatten() == s + rest.flatten());
        lemma_found_markers_rise(rest);
        lemma_marker_from_is_first(s, 0);
        let r = shift(found_markers(rest), s.len() as int);
        assert(rising_within(r, chunks.flatten().len() as int));
        match first_marker(s) {
            Some(st) => {
                let p = seq![st as int] + r;
                assert forall|i: int, j: int| 0 <= i < j < p.len() implies p[i] < p[j] by {
                    if i > 0 {
                        assert(p[i] == r[i - 1]);
                    }
                    assert(p[j] == r[j - 1]);
                }
            },
            None => {},
        }
    }
}

proof fn lemma_shifted_subrange(x: Seq<u8>, t: Seq<u8>, a: int, b: int)
    requires
        0 <= a <= b <= t.len(),
    ensures
        (x + t).subrange(a + x.len(), b + x.len()) == t.subrange(a, b),
{
    assert((x + t).subrange(a + x.len(), b + x.len()) =~= t.subrange(a, b));
}

proof fn lemma_spans_shift(x: Seq<u8>, t: Seq<u8>, p: Seq<int>)
    requires
        rising_within(p, t.len() as int),
    ensures
        spans_between(x + t, shift(p, x.len() as int)) == spans_between(t, p),
{
    let q = shift(p, x.len() as int);
    assert forall|i: int| 0 <= i < fields_between(p.len()) implies #[trigger] spans_between(
        x + t,
        q,
    )[i] == spans_between(t, p)[i] by {
        lemma_shifted_subrange(x, t, p[i], p[i + 1]);
    }
    assert(spans_between(x + t, q) =~= spans_between(t, p));
}

proof fn lemma_fields_are_spans(active: Seq<u8>, chunks: Seq<Seq<u8>>, cap: nat)
    requires
        never_overruns(active, chunks, cap),
    ensures
        feed_fields(active, chunks, cap) == spans_between(
            active + chunks.flatten(),
            open_positions(active, chunks),
        ),
    decreases chunks.len(),
{
    let st_all = active + chunks.flatten();
    if chunks.len() == 0 {
        assert(spans_between(st_all, open_positions(active, chunks)) =~= Seq::empty());
    } else {
        let s = chunks[0];
        let rest = chunks.drop_first();
        let r = rest.flatten();
        assert(chunks.flatten() == s + r);
        lemma_marker_from_is_first(s, 0);
        lemma_found_markers_rise(rest);
        let next = next_active(active, s, cap);
        lemma_fields_are_spans(next, rest, cap);
        let fr = found_markers(rest);
        let tail_fields = spans_between(next + r, open_positions(next, rest));
        match first_marker(s) {
            Some(st) => {
                let tail = s.subrange(st as int, s.len() as int);
                assert(next == tail);
                assert(next.len() > 0);
                // positions after the new marker, seen from the new marker
                let q = open_positions(next, rest);
                assert(q =~= seq![0int] + shift(fr, tail.len() as int));
                let pre = active + s.subrange(0, st as int);
                assert(st_all =~= pre + (tail + r));
                let p = open_positions(active, chunks);
                let k = if active.len() > 0 { 1int } else { 0int };
                // p is the opening of the active field, if any, then q moved by pre
                assert(p.subrange(k, p.len() as int) =~= shift(q, pre.len() as int));
                assert(rising_within(q, (tail + r).len() as int)) by {
                    assert forall|i: int, j: int| 0 <= i < j < q.len() implies q[i] < q[j] by {
                        if i > 0 {
                            assert(q[i] == fr[i - 1] + tail.len());
                        }
                        assert(q[j] == fr[j - 1] + tail.len());
                    }
                    assert forall|i: int| 0 <= i < q.len() implies 0 <= #[trigger] q[i] < (tail
                        + r).len() by {
                        if i > 0 {
                            assert(q[i] == fr[i - 1] + tail.len());
                        }
                    }
                }
                lemma_spans_shift(pre, tail + r, q);
                if active.len() > 0 {
                    let c = active + s.subrange(0, st as int);
                    assert(feed_fields(active, chunks, cap) == seq![c] + tail_fields);
                    assert(p[0] == 0 && p[1] == pre.len());
                    assert(st_all.subrange(0, pre.len() as int) =~= c);
                    let lhs = seq![c] + tail_fields;
                    let rhs = spans_between(st_all, p);
                    assert(rhs.len() == lhs.len());
                    assert forall|i: int| 0 <= i < lhs.len() implies lhs[i] == rhs[i] by {
                        if i > 0 {
                            assert(p[i] == shift(q, pre.len() as int)[i - 1]);
                            assert(p[i + 1] == shift(q, pre.len() as int)[i]);
                            assert(rhs[i] == spans_between(st_all, shift(q, pre.len() as int))[i
                                - 1]);
                        }
                    }
                    assert(lhs =~= rhs);
                } else {
                    assert(feed_fields(active, chunks, cap) == tail_fields);
                    assert(p =~= shift(q, pre.len() as int));
                }
            },
            None => {
                let p = open_positions(active, chunks);
                if active.len() > 0 {
                    assert(next == active + s);
                    assert(st_all =~= next + r);
                    assert(p =~= open_positions(next, rest));
                } else {
                    assert(next == Seq::<u8>::empty());
                    assert(next + r =~= r);
                    assert(st_all =~= s + r);
                    assert(open_positions(next, rest) =~= fr);
                    assert(p =~= shift(fr, s.len() as int));
                    lemma_spans_shift(s, r, fr);
                }
            },
        }
    }
}

/// Fed a stream in which no chunk overruns a slot, the assembler closes, in
/// order, exactly the spans of the stream between consecutive found markers
/// (the first marker of each chunk that holds one), each span starting at its
/// marker and ending before the next.
pub proof fn lemma_fields_in_stream_order(chunks: Seq<Seq<u8>>, cap: nat)
    requires
        never_overruns(Seq::empty(), chunks, cap),
    ensures
        feed_fields(Seq::empty(), chunks, cap) == spans_between(
            chunks.flatten(),
            found_markers(chunks),
        ),
{
    lemma_fields_are_spans(Seq::empty(), chunks, cap);
    assert(Seq::<u8>::empty() + chunks.flatten() =~= chunks.flatten());
    assert(open_positions(Seq::empty(), chunks) =~= found_markers(chunks));
}

proof fn lemma_unmarked_from_empty(chunks: Seq<Seq<u8>>, cap: nat)
    requires
        forall|i: int| 0 <= i < chunks.len() ==> first_marker(#[trigger] chunks[i]) is None,
    ensures
        feed_advances(Seq::empty(), chunks, cap) == 0,
        feed_active(Seq::empty(), chunks, cap) == Seq::<u8>::empty(),
        feed_fields(Seq::empty(), chunks, cap).len() == 0,
    decreases chunks.len(),
{
    if chunks.len() > 0 {
        let rest = chunks.drop_first();
        assert(first_marker(chunks[0]) is None);
        assert forall|i: int| 0 <= i < rest.len() implies first_marker(#[trigger] rest[i]) is None by {
            assert(rest[i] == chunks[i + 1]);
        }
        lemma_unmarked_from_empty(rest, cap);
    }
}

/// With no marker in sight, an open field takes every chunk while it fits
/// its slot; the chunk that would overrun the slot moves the cursor, exactly
/// once, and drops the field, and what follows is discarded until a marker.
pub proof fn lemma_overrun_advances_once(active: Seq<u8>, chunks: Seq<Seq<u8>>, cap: nat)
    requires
        0 < active.len() <= cap,
        forall|i: int| 0 <= i < chunks.len() ==> first_marker(#[trigger] chunks[i]) is None,
    ensures
        feed_advances(active, chunks, cap) == if active.len() + chunks.flatten().len() > cap {
            1nat
        } else {
            0nat
        },
        feed_active(active, chunks, cap) == if active.len() + chunks.flatten().len() > cap {
            Seq::<u8>::empty()
        } else {
            active + chunks.flatten()
        },
        feed_fields(active, chunks, cap).len() == 0,
    decreases chunks.len(),
{
    if chunks.len() == 0 {
        assert(active + chunks.flatten() =~= active);
    } else {
        let s = chunks[0];
        let rest = chunks.drop_first();
        assert(chunks.flatten() == s + rest.flatten());
        assert(first_marker(s) is None);
        assert forall|i: int| 0 <= i < rest.len() implies first_marker(#[trigger] rest[i]) is None by {
            assert(rest[i] == chunks[i + 1]);
        }
        if active.len() + s.len() > cap {
            lemma_unmarked_from_empty(rest, cap);
        } else {
            lemma_overrun_advances_once(active + s, rest, cap);
            assert(active + s + rest.flatten() =~= active + chunks.flatten());
        }
    }
}

} // verus!
