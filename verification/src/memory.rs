//! The byte format of a saved memory: a header, the vacuum vector and the
//! causal events, every number a little-endian 64-bit word.
//!
//! Layout: `basis_dim`, `next_gen`, `next_constraint`, the number of vector
//! entries, then each entry as two words (the bits of its real and imaginary
//! parts); the number of events, then each event as `id`, the bits of its
//! burden, `depth`, the byte length of its label, and the label's UTF-8
//! bytes.  Floating-point values travel as their bit patterns; turning them
//! into numbers is the caller's business.
use vstd::prelude::*;
use vstd::bytes::{
    lemma_auto_spec_u64_to_from_le_bytes, spec_u64_from_le_bytes, spec_u64_to_le_bytes,
    u64_from_le_bytes, u64_to_le_bytes,
};
use vstd::slice::{slice_subrange, slice_to_vec};
use vstd::utf8::{decode_utf8, encode_utf8, valid_utf8};
use vstd::string::StringSliceAdditionalSpecFns;

verus! {

broadcast use vstd::utf8::group_utf8_lib;

/// One saved causal event.
#[derive(Clone, Debug)]
pub struct StoredEvent {
    pub id: u64,
    pub burden_bits: u64,
    pub depth: u64,
    pub label: String,
}

/// A saved memory.
#[derive(Clone, Debug)]
pub struct MemoryImage {
    pub basis_dim: u64,
    pub next_gen: u64,
    pub next_constraint: u64,
    pub omega: Vec<(u64, u64)>,
    pub events: Vec<StoredEvent>,
}

/// The value of a saved event.
pub struct StoredEventView {
    pub id: u64,
    pub burden_bits: u64,
    pub depth: u64,
    pub label: Seq<char>,
}

/// The value of a saved memory.
pub struct MemoryImageView {
    pub basis_dim: u64,
    pub next_gen: u64,
    pub next_constraint: u64,
    pub omega: Seq<(u64, u64)>,
    pub events: Seq<StoredEventView>,
}

impl DeepView for StoredEvent {
    type V = StoredEventView;

    open spec fn deep_view(&self) -> StoredEventView {
        StoredEventView {
            id: self.id,
            burden_bits: self.burden_bits,
            depth: self.depth,
            label: self.label@,
        }
    }
}

impl DeepView for MemoryImage {
    type V = MemoryImageView;

    open spec fn deep_view(&self) -> MemoryImageView {
        MemoryImageView {
            basis_dim: self.basis_dim,
            next_gen: self.next_gen,
            next_constraint: self.next_constraint,
            omega: self.omega@,
            events: self.events.deep_view(),
        }
    }
}

/// Why bytes are not a saved memory: they end before a field does.
#[derive(Clone, Copy, Debug, PartialEq, Eq, Structural)]
pub enum DecodeError {
    UnexpectedEnd,
}

// ---------------------------------------------------------------------------
// The format

/// The little-endian bytes of a word.
pub open spec fn le(x: u64) -> Seq<u8> {
    spec_u64_to_le_bytes(x)
}

/// The word at `at`, if the bytes reach that far.
pub open spec fn read_u64(b: Seq<u8>, at: int) -> Option<u64> {
    if 0 <= at && at + 8 <= b.len() {
        Some(spec_u64_from_le_bytes(b.subrange(at, at + 8)))
    } else {
        None
    }
}

/// A label's characters: its bytes read as UTF-8, or nothing where they are
/// not UTF-8.
pub open spec fn label_of(bytes: Seq<u8>) -> Seq<char> {
    if valid_utf8(bytes) {
        decode_utf8(bytes)
    } else {
        Seq::empty()
    }
}

/// `n` vector entries from `at`, and the index after them.
pub open spec fn decode_omega(b: Seq<u8>, at: int, n: nat) -> Option<(Seq<(u64, u64)>, int)>
    decreases n,
{
    if n == 0 {
        Some((Seq::empty(), at))
    } else {
        match (read_u64(b, at), read_u64(b, at + 8)) {
            (Some(re), Some(im)) => match decode_omega(b, at + 16, (n - 1) as nat) {
                Some((rest, end)) => Some((seq![(re, im)] + rest, end)),
                None => None,
            },
            _ => None,
        }
    }
}

/// The event at `at`, and the index after it.
pub open spec fn decode_event(b: Seq<u8>, at: int) -> Option<(StoredEventView, int)> {
    match (read_u64(b, at), read_u64(b, at + 8), read_u64(b, at + 16), read_u64(b, at + 24)) {
        (Some(id), Some(burden_bits), Some(depth), Some(len)) => if at + 32 + len <= b.len() {
            Some(
                (
                    StoredEventView {
                        id,
                        burden_bits,
                        depth,
                        label: label_of(b.subrange(at + 32, at + 32 + len)),
                    },
                    at + 32 + len,
                ),
            )
        } else {
            None
        },
        _ => None,
    }
}

/// `n` events from `at`, and the index after them.
pub open spec fn decode_events(b: Seq<u8>, at: int, n: nat) -> Option<(Seq<StoredEventView>, int)>
    decreases n,
{
    if n == 0 {
        Some((Seq::empty(), at))
    } else {
        match decode_event(b, at) {
            Some((e, next)) => match decode_events(b, next, (n - 1) as nat) {
                Some((rest, end)) => Some((seq![e] + rest, end)),
                None => None,
            },
            None => None,
        }
    }
}

/// The memory saved in `b` (bytes after the last event are not read).
pub open spec fn decode_image(b: Seq<u8>) -> Option<MemoryImageView> {
    match (read_u64(b, 0), read_u64(b, 8), read_u64(b, 16), read_u64(b, 24)) {
        (Some(basis_dim), Some(next_gen), Some(next_constraint), Some(n)) => match decode_omega(
            b,
            32,
            n as nat,
        ) {
            Some((omega, p)) => match read_u64(b, p) {
                Some(m) => match decode_events(b, p + 8, m as nat) {
                    Some((events, _)) => Some(
                        MemoryImageView { basis_dim, next_gen, next_constraint, omega, events },
                    ),
                    None => None,
                },
                None => None,
            },
            None => None,
        },
        _ => None,
    }
}

pub open spec fn encode_omega(om: Seq<(u64, u64)>) -> Seq<u8>
    decreases om.len(),
{
    if om.len() == 0 {
        Seq::empty()
    } else {
        le(om[0].0) + le(om[0].1) + encode_omega(om.drop_first())
    }
}

pub open spec fn encode_event(e: StoredEventView) -> Seq<u8> {
    le(e.id) + le(e.burden_bits) + le(e.depth) + le(encode_utf8(e.label).len() as u64) + encode_utf8(e.label)
}

pub open spec fn encode_events(evs: Seq<StoredEventView>) -> Seq<u8>
    decreases evs.len(),
{
    if evs.len() == 0 {
        Seq::empty()
    } else {
        encode_event(evs[0]) + encode_events(evs.drop_first())
    }
}

/// The bytes a memory is saved as.
pub open spec fn encode_image(m: MemoryImageView) -> Seq<u8> {
    le(m.basis_dim) + le(m.next_gen) + le(m.next_constraint) + le(m.omega.len() as u64) + encode_omega(
        m.omega,
    ) + le(m.events.len() as u64) + encode_events(m.events)
}

/// Whether every count and length of a memory fits in a word.
pub open spec fn encodable(m: MemoryImageView) -> bool {
    &&& m.omega.len() <= u64::MAX
    &&& m.events.len() <= u64::MAX
    &&& forall|i: int| 0 <= i < m.events.len() ==> encode_utf8(#[trigger] m.events[i].label).len() <= u64::MAX
}


// ---------------------------------------------------------------------------
// Reading back what was written

proof fn lemma_read_le(pre: Seq<u8>, x: u64, post: Seq<u8>)
    ensures
        read_u64(pre + le(x) + post, pre.len() as int) == Some(x),
        le(x).len() == 8,
{
    lemma_auto_spec_u64_to_from_le_bytes();
    let b = pre + le(x) + post;
    assert(b.subrange(pre.len() as int, pre.len() + 8int) =~= le(x));
}

proof fn lemma_decode_omega(pre: Seq<u8>, om: Seq<(u64, u64)>, post: Seq<u8>)
    ensures
        decode_omega(pre + encode_omega(om) + post, pre.len() as int, om.len())
            == Some((om, (pre.len() + encode_omega(om).len()) as int)),
    decreases om.len(),
{
    lemma_auto_spec_u64_to_from_le_bytes();
    let b = pre + encode_omega(om) + post;
    if om.len() == 0 {
        assert(om =~= Seq::empty());
    } else {
        let a = le(om[0].0);
        let c = le(om[0].1);
        let rest = encode_omega(om.drop_first());
        assert(b =~= pre + a + (c + rest + post));
        lemma_read_le(pre, om[0].0, c + rest + post);
        assert(b =~= (pre + a) + c + (rest + post));
        lemma_read_le(pre + a, om[0].1, rest + post);
        assert(b =~= (pre + a + c) + rest + post);
        lemma_decode_omega(pre + a + c, om.drop_first(), post);
        assert(seq![om[0]] + om.drop_first() =~= om);
    }
}

proof fn lemma_decode_event(pre: Seq<u8>, e: StoredEventView, post: Seq<u8>)
    requires
        encode_utf8(e.label).len() <= u64::MAX,
    ensures
        decode_event(pre + encode_event(e) + post, pre.len() as int)
            == Some((e, (pre.len() + encode_event(e).len()) as int)),
{
    lemma_auto_spec_u64_to_from_le_bytes();
    let lb = encode_utf8(e.label);
    let n = lb.len() as u64;
    let b = pre + encode_event(e) + post;
    let w1 = le(e.id);
    let w2 = le(e.burden_bits);
    let w3 = le(e.depth);
    let w4 = le(n);
    assert(b =~= pre + w1 + (w2 + w3 + w4 + lb + post));
    lemma_read_le(pre, e.id, w2 + w3 + w4 + lb + post);
    assert(b =~= (pre + w1) + w2 + (w3 + w4 + lb + post));
    lemma_read_le(pre + w1, e.burden_bits, w3 + w4 + lb + post);
    assert(b =~= (pre + w1 + w2) + w3 + (w4 + lb + post));
    lemma_read_le(pre + w1 + w2, e.depth, w4 + lb + post);
    assert(b =~= (pre + w1 + w2 + w3) + w4 + (lb + post));
    lemma_read_le(pre + w1 + w2 + w3, n, lb + post);
    let at = pre.len() as int;
    assert(b.subrange(at + 32, at + 32 + n) =~= lb);
}

proof fn lemma_decode_events(pre: Seq<u8>, evs: Seq<StoredEventView>, post: Seq<u8>)
    requires
        forall|i: int| 0 <= i < evs.len() ==> encode_utf8(#[trigger] evs[i].label).len() <= u64::MAX,
    ensures
        decode_events(pre + encode_events(evs) + post, pre.len() as int, evs.len())
            == Some((evs, (pre.len() + encode_events(evs).len()) as int)),
    decreases evs.len(),
{
    let b = pre + encode_events(evs) + post;
    if evs.len() == 0 {
        assert(evs =~= Seq::empty());
    } else {
        let first = encode_event(evs[0]);
        let rest = encode_events(evs.drop_first());
        assert(b =~= pre + first + (rest + post));
        lemma_decode_event(pre, evs[0], rest + post);
        assert(b =~= (pre + first) + rest + post);
        assert forall|i: int| 0 <= i < evs.drop_first().len() implies encode_utf8(
            #[trigger] evs.drop_first()[i].label,
        ).len() <= u64::MAX by {
            assert(evs.drop_first()[i] == evs[i + 1]);
        }
        lemma_decode_events(pre + first, evs.drop_first(), post);
        assert(seq![evs[0]] + evs.drop_first() =~= evs);
    }
}

/// Reading back the bytes a memory is saved as gives that memory.
pub proof fn lemma_memory_roundtrip(m: MemoryImageView)
    requires
        encodable(m),
    ensures
        decode_image(encode_image(m)) == Some(m),
{
    lemma_auto_spec_u64_to_from_le_bytes();
    let e = Seq::<u8>::empty();
    let h1 = le(m.basis_dim);
    let h2 = le(m.next_gen);
    let h3 = le(m.next_constraint);
    let h4 = le(m.omega.len() as u64);
    let om = encode_omega(m.omega);
    let h5 = le(m.events.len() as u64);
    let ev = encode_events(m.events);
    let b = encode_image(m);
    assert(b =~= e + h1 + (h2 + h3 + h4 + om + h5 + ev));
    lemma_read_le(e, m.basis_dim, h2 + h3 + h4 + om + h5 + ev);
    assert(b =~= (e + h1) + h2 + (h3 + h4 + om + h5 + ev));
    lemma_read_le(e + h1, m.next_gen, h3 + h4 + om + h5 + ev);
    assert(b =~= (e + h1 + h2) + h3 + (h4 + om + h5 + ev));
    lemma_read_le(e + h1 + h2, m.next_constraint, h4 + om + h5 + ev);
    assert(b =~= (e + h1 + h2 + h3) + h4 + (om + h5 + ev));
    lemma_read_le(e + h1 + h2 + h3, m.omega.len() as u64, om + h5 + ev);
    let pre = h1 + h2 + h3 + h4;
    assert(b =~= pre + om + (h5 + ev));
    lemma_decode_omega(pre, m.omega, h5 + ev);
    assert(b =~= (pre + om) + h5 + ev);
    lemma_read_le(pre + om, m.events.len() as u64, ev);
    assert(b =~= (pre + om + h5) + ev + e);
    lemma_decode_events(pre + om + h5, m.events, e);
}

// ---------------------------------------------------------------------------
// Writing and reading

proof fn lemma_encode_omega_push(om: Seq<(u64, u64)>, x: (u64, u64))
    ensures
        encode_omega(om.push(x)) == encode_omega(om) + le(x.0) + le(x.1),
    decreases om.len(),
{
    if om.len() == 0 {
        assert(om.push(x).drop_first() =~= Seq::empty());
        assert(encode_omega(Seq::<(u64, u64)>::empty()) == Seq::<u8>::empty());
        assert(encode_omega(om.push(x)) =~= encode_omega(om) + le(x.0) + le(x.1));
    } else {
        assert(om.push(x).drop_first() =~= om.drop_first().push(x));
        lemma_encode_omega_push(om.drop_first(), x);
        assert(encode_omega(om.push(x)) =~= encode_omega(om) + le(x.0) + le(x.1));
    }
}

proof fn lemma_encode_events_push(evs: Seq<StoredEventView>, x: StoredEventView)
    ensures
        encode_events(evs.push(x)) == encode_events(evs) + encode_event(x),
    decreases evs.len(),
{
    if evs.len() == 0 {
        assert(evs.push(x).drop_first() =~= Seq::empty());
        assert(encode_events(Seq::<StoredEventView>::empty()) == Seq::<u8>::empty());
        assert(encode_events(evs.push(x)) =~= encode_events(evs) + encode_event(x));
    } else {
        assert(evs.push(x).drop_first() =~= evs.drop_first().push(x));
        lemma_encode_events_push(evs.drop_first(), x);
        assert(encode_events(evs.push(x)) =~= encode_events(evs) + encode_event(x));
    }
}

/// Appends bytes to a buffer.
fn append_bytes(out: &mut Vec<u8>, b: &[u8])
    ensures
        final(out)@ == old(out)@ + b@,
{
    let mut i: usize = 0;
    while i < b.len()
        invariant
            i <= b@.len(),
            out@ == old(out)@ + b@.take(i as int),
        decreases b.len() - i,
    {
        out.push(b[i]);
        assert(b@.take(i + 1) =~= b@.take(i as int).push(b@[i as int]));
        i += 1;
    }
    assert(b@.take(b.len() as int) =~= b@);
}

/// Appends a word, little-endian.
fn append_word(out: &mut Vec<u8>, x: u64)
    ensures
        final(out)@ == old(out)@ + le(x),
{
    let w = u64_to_le_bytes(x);
    append_bytes(out, w.as_slice());
}

/// Calls `String::from_utf8`: the string the bytes encode, where they are
/// UTF-8.  vstd's `valid_utf8` and `decode_utf8` state what UTF-8 is.
#[verifier::external_body]
fn string_from_utf8(bytes: Vec<u8>) -> (r: Option<String>)
    ensures
        r is Some <==> valid_utf8(bytes@),
        r matches Some(s) ==> s@ == decode_utf8(bytes@),
{
    String::from_utf8(bytes).ok()
}

/// The word at `at`, if the bytes reach that far.
fn read_word(data: &[u8], at: usize) -> (r: Option<u64>)
    ensures
        r == read_u64(data@, at as int),
        r is Some ==> at + 8 <= data@.len(),
        data@.len() <= usize::MAX,
{
    let _n = data.len();
    if at <= data.len() && data.len() - at >= 8 {
        Some(u64_from_le_bytes(slice_subrange(data, at, at + 8)))
    } else {
        None
    }
}

/// `r` with `pre` put in front of what it read.
pub open spec fn prefixed<A>(pre: Seq<A>, r: Option<(Seq<A>, int)>) -> Option<(Seq<A>, int)> {
    match r {
        Some((rest, end)) => Some((pre + rest, end)),
        None => None,
    }
}

/// Reads `n` vector entries from `at`.
fn read_omega(data: &[u8], at: usize, n: u64) -> (r: Option<(Vec<(u64, u64)>, usize)>)
    ensures
        match decode_omega(data@, at as int, n as nat) {
            Some((om, end)) => r matches Some((v, e)) && v@ == om && e == end,
            None => r is None,
        },
{
    let mut v: Vec<(u64, u64)> = Vec::new();
    let mut cur = at;
    let mut i: u64 = 0;
    assert(prefixed(v@, decode_omega(data@, at as int, n as nat)) =~= decode_omega(data@, at as int, n as nat)) by {
        if let Some((rest, end)) = decode_omega(data@, at as int, n as nat) {
            assert(v@ + rest =~= rest);
        }
    }
    while i < n
        invariant
            i <= n,
            decode_omega(data@, at as int, n as nat) == prefixed(
                v@,
                decode_omega(data@, cur as int, (n - i) as nat),
            ),
        decreases n - i,
    {
        let re = match read_word(data, cur) {
            Some(x) => x,
            None => {
                return None;
            },
        };
        let im = match read_word(data, cur + 8) {
            Some(x) => x,
            None => {
                return None;
            },
        };
        let ghost v0 = v@;
        v.push((re, im));
        proof {
            if let Some((rest, end)) = decode_omega(data@, cur + 16, (n - i - 1) as nat) {
                assert(v0 + (seq![(re, im)] + rest) =~= v@ + rest);
            }
        }
        cur = cur + 16;
        i = i + 1;
    }
    assert(v@ + Seq::empty() =~= v@);
    Some((v, cur))
}

/// Reads the event at `at`.
fn read_event(data: &[u8], at: usize) -> (r: Option<(StoredEvent, usize)>)
    ensures
        match decode_event(data@, at as int) {
            Some((ev, end)) => r matches Some((x, e)) && x.deep_view() == ev && e == end,
            None => r is None,
        },
{
    let id = match read_word(data, at) {
        Some(x) => x,
        None => {
            return None;
        },
    };
    let burden_bits = match read_word(data, at + 8) {
        Some(x) => x,
        None => {
            return None;
        },
    };
    let depth = match read_word(data, at + 16) {
        Some(x) => x,
        None => {
            return None;
        },
    };
    let len = match read_word(data, at + 24) {
        Some(x) => x,
        None => {
            return None;
        },
    };
    let start = at + 32;
    if start > data.len() || len > (data.len() - start) as u64 {
        return None;
    }
    let end = start + len as usize;
    let bytes = slice_to_vec(slice_subrange(data, start, end));
    let label = match string_from_utf8(bytes) {
        Some(s) => s,
        None => String::new(),
    };
    Some((StoredEvent { id, burden_bits, depth, label }, end))
}

/// Reads `n` events from `at`.
fn read_events(data: &[u8], at: usize, n: u64) -> (r: Option<Vec<StoredEvent>>)
    ensures
        match decode_events(data@, at as int, n as nat) {
            Some((evs, _)) => r matches Some(v) && v.deep_view() == evs,
            None => r is None,
        },
{
    let mut v: Vec<StoredEvent> = Vec::new();
    let mut cur = at;
    let mut i: u64 = 0;
    assert(v.deep_view() =~= Seq::empty());
    assert(prefixed(v.deep_view(), decode_events(data@, at as int, n as nat)) =~= decode_events(
        data@,
        at as int,
        n as nat,
    )) by {
        if let Some((rest, end)) = decode_events(data@, at as int, n as nat) {
            assert(v.deep_view() + rest =~= rest);
        }
    }
    while i < n
        invariant
            i <= n,
            decode_events(data@, at as int, n as nat) == prefixed(
                v.deep_view(),
                decode_events(data@, cur as int, (n - i) as nat),
            ),
        decreases n - i,
    {
        let (ev, next) = match read_event(data, cur) {
            Some(x) => x,
            None => {
                return None;
            },
        };
        let ghost v0 = v;
        let ghost ge = ev;
        v.push(ev);
        proof {
            crate::ast::lemma_push_deep_view(v0, v, ge);
            if let Some((rest, end)) = decode_events(data@, next as int, (n - i - 1) as nat) {
                assert(v0.deep_view() + (seq![ge.deep_view()] + rest) =~= v.deep_view() + rest);
            }
        }
        cur = next;
        i = i + 1;
    }
    assert(v.deep_view() + Seq::empty() =~= v.deep_view());
    Some(v)
}

impl MemoryImage {
    /// The bytes this memory is saved as.
    pub fn to_bytes(&self) -> (b: Vec<u8>)
        ensures
            b@ == encode_image(self.deep_view()),
    {
        let mut out: Vec<u8> = Vec::new();
        append_word(&mut out, self.basis_dim);
        append_word(&mut out, self.next_gen);
        append_word(&mut out, self.next_constraint);
        append_word(&mut out, self.omega.len() as u64);
        let ghost head = out@;
        let mut i: usize = 0;
        assert(self.omega@.take(0) =~= Seq::empty());
        while i < self.omega.len()
            invariant
                i <= self.omega@.len(),
                out@ == head + encode_omega(self.omega@.take(i as int)),
            decreases self.omega.len() - i,
        {
            let (re, im) = self.omega[i];
            append_word(&mut out, re);
            append_word(&mut out, im);
            proof {
                assert(self.omega@.take(i + 1) =~= self.omega@.take(i as int).push((re, im)));
                lemma_encode_omega_push(self.omega@.take(i as int), (re, im));
            }
            i += 1;
        }
        assert(self.omega@.take(self.omega.len() as int) =~= self.omega@);
        append_word(&mut out, self.events.len() as u64);
        let ghost head2 = out@;
        let ghost evs = self.events.deep_view();
        let mut j: usize = 0;
        assert(evs.take(0) =~= Seq::empty());
        while j < self.events.len()
            invariant
                j <= self.events@.len(),
                evs == self.events.deep_view(),
                out@ == head2 + encode_events(evs.take(j as int)),
            decreases self.events.len() - j,
        {
            let ev = &self.events[j];
            let lb = ev.label.as_str().as_bytes();
            append_word(&mut out, ev.id);
            append_word(&mut out, ev.burden_bits);
            append_word(&mut out, ev.depth);
            append_word(&mut out, lb.len() as u64);
            append_bytes(&mut out, lb);
            proof {
                assert(evs[j as int] == ev.deep_view());
                assert(evs.take(j + 1) =~= evs.take(j as int).push(ev.deep_view()));
                lemma_encode_events_push(evs.take(j as int), ev.deep_view());
            }
            j += 1;
        }
        assert(evs.take(self.events.len() as int) =~= evs);
        out
    }

    /// The memory saved in `data`: everything up to the last event's label
    /// (later bytes are not read), or `UnexpectedEnd` where the bytes end
    /// before a field does.
    pub fn from_bytes(data: &[u8]) -> (r: Result<MemoryImage, DecodeError>)
        ensures
            match decode_image(data@) {
                Some(m) => r matches Ok(x) && x.deep_view() == m,
                None => r == Err::<MemoryImage, DecodeError>(DecodeError::UnexpectedEnd),
            },
    {
        let basis_dim = match read_word(data, 0) {
            Some(x) => x,
            None => {
                return Err(DecodeError::UnexpectedEnd);
            },
        };
        let next_gen = match read_word(data, 8) {
            Some(x) => x,
            None => {
                return Err(DecodeError::UnexpectedEnd);
            },
        };
        let next_constraint = match read_word(data, 16) {
            Some(x) => x,
            None => {
                return Err(DecodeError::UnexpectedEnd);
            },
        };
        let n = match read_word(data, 24) {
            Some(x) => x,
            None => {
                return Err(DecodeError::UnexpectedEnd);
            },
        };
        let (omega, p) = match read_omega(data, 32, n) {
            Some(x) => x,
            None => {
                return Err(DecodeError::UnexpectedEnd);
            },
        };
        let m = match read_word(data, p) {
            Some(x) => x,
            None => {
                return Err(DecodeError::UnexpectedEnd);
            },
        };
        if p > data.len() || data.len() - p < 8 {
            return Err(DecodeError::UnexpectedEnd);
        }
        let events = match read_events(data, p + 8, m) {
            Some(v) => v,
            None => {
                return Err(DecodeError::UnexpectedEnd);
            },
        };
        Ok(MemoryImage { basis_dim, next_gen, next_constraint, omega, events })
    }
}

} // verus!
