use vstd::prelude::*;

use vstd::arithmetic::div_mod::lemma_add_mod_noop_right;

use crate::chunk::Chunk;
use crate::pixel::{hash, hash_of, Pixel};

verus! {

/// What reconstruction remembers between chunks: the current pixel and the
/// 64-slot running cache.
pub struct PixelState {
    pub current: Pixel,
    pub cache: Seq<Pixel>,
}

/// The state that every image starts from.
pub open spec fn initial_state() -> PixelState {
    PixelState {
        current: Pixel { r: 0, g: 0, b: 0, a: 255 },
        cache: Seq::new(64, |_i: int| Pixel { r: 0, g: 0, b: 0, a: 0 }),
    }
}

/// A channel value taken modulo 256.
pub open spec fn wrap_u8(x: int) -> u8 {
    (x % 256) as u8
}

/// The pixel that a chunk yields from the state before it.
pub open spec fn next_pixel(st: PixelState, c: Chunk) -> Pixel {
    let cur = st.current;
    match c {
        Chunk::RGB(r, g, b) => Pixel { r, g, b, a: cur.a },
        Chunk::RGBA(r, g, b, a) => Pixel { r, g, b, a },
        Chunk::INDEX(i) => st.cache[i as int],
        Chunk::DIFF(dr, dg, db) => Pixel {
            r: wrap_u8(cur.r + dr - 2),
            g: wrap_u8(cur.g + dg - 2),
            b: wrap_u8(cur.b + db - 2),
            a: cur.a,
        },
        Chunk::LUMA(dg, dr_dg, db_dg) => {
            let vg = dg - 32;
            Pixel {
                r: wrap_u8(cur.r + vg + dr_dg - 8),
                g: wrap_u8(cur.g + vg),
                b: wrap_u8(cur.b + vg + db_dg - 8),
                a: cur.a,
            }
        },
        Chunk::RUN(_) => cur,
    }
}

/// How many pixels a chunk yields.
pub open spec fn pixel_count(c: Chunk) -> nat {
    match c {
        Chunk::RUN(n) => (n + 1) as nat,
        _ => 1,
    }
}

/// The state after a chunk: a run changes nothing; any other chunk makes its
/// pixel current and stores it in the cache slot given by its hash.
pub open spec fn step(st: PixelState, c: Chunk) -> PixelState {
    if c is RUN {
        st
    } else {
        let p = next_pixel(st, c);
        PixelState { current: p, cache: st.cache.update(hash_of(p), p) }
    }
}

/// The pixels that a chunk yields from the state before it.
pub open spec fn emitted(st: PixelState, c: Chunk) -> Seq<Pixel> {
    Seq::new(pixel_count(c), |_i: int| next_pixel(st, c))
}

/// A run of `n` yields `n + 1` copies of the current pixel and changes
/// neither the current pixel nor the cache.
pub proof fn lemma_run_repeats_current(st: PixelState, n: u8)
    ensures
        emitted(st, Chunk::RUN(n)) == Seq::new((n + 1) as nat, |_i: int| st.current),
        step(st, Chunk::RUN(n)) == st,
{
    assert(emitted(st, Chunk::RUN(n)) =~= Seq::new((n + 1) as nat, |_i: int| st.current));
}

/// An index chunk yields exactly the pixel stored in that cache slot.
pub proof fn lemma_index_reads_cache(st: PixelState, i: u8)
    requires
        i < 64,
    ensures
        emitted(st, Chunk::INDEX(i)) == seq![st.cache[i as int]],
        step(st, Chunk::INDEX(i)).current == st.cache[i as int],
{
    assert(emitted(st, Chunk::INDEX(i)) =~= seq![st.cache[i as int]]);
}

/// After a chunk other than a run, the cache slot of the new current pixel holds it.
pub proof fn lemma_cache_holds_current(st: PixelState, c: Chunk)
    requires
        st.cache.len() == 64,
        !(c is RUN),
    ensures
        step(st, c).cache[hash_of(step(st, c).current)] == step(st, c).current,
{
}

/// The state after a sequence of chunks, from the initial state.
pub open spec fn state_after(chunks: Seq<Chunk>) -> PixelState
    decreases chunks.len(),
{
    if chunks.len() == 0 {
        initial_state()
    } else {
        step(state_after(chunks.drop_last()), chunks.last())
    }
}

/// A decoded pixel with the chunk that produced it.
#[derive(Clone, Copy, Debug, PartialEq, Eq, Structural)]
pub struct TrackedPix {
    pub pix: Pixel,
    pub from: Chunk,
}

/// The tracked pixels that one chunk yields from the state before it.
pub open spec fn emitted_tracked(st: PixelState, c: Chunk) -> Seq<TrackedPix> {
    Seq::new(pixel_count(c), |_i: int| TrackedPix { pix: next_pixel(st, c), from: c })
}

/// All tracked pixels that a sequence of chunks yields, in order.
#[verifier::opaque]
pub open spec fn tracked_after(chunks: Seq<Chunk>) -> Seq<TrackedPix>
    decreases chunks.len(),
{
    if chunks.len() == 0 {
        Seq::empty()
    } else {
        let init = chunks.drop_last();
        tracked_after(init) + emitted_tracked(state_after(init), chunks.last())
    }
}

/// The tracked pixels of a prefix of the chunks are a prefix of those of all of them.
pub proof fn lemma_tracked_prefix(chunks: Seq<Chunk>, k: int, n: int)
    requires
        0 <= k <= n <= chunks.len(),
    ensures
        tracked_after(chunks.take(k)).len() <= tracked_after(chunks.take(n)).len(),
        tracked_after(chunks.take(k)) =~= tracked_after(chunks.take(n)).take(
            tracked_after(chunks.take(k)).len() as int,
        ),
    decreases n - k,
{
    if k < n {
        lemma_tracked_prefix(chunks, k, n - 1);
        reveal(tracked_after);
        assert(chunks.take(n).drop_last() =~= chunks.take(n - 1));
    }
}

/// Adding and then subtracting with wraparound is arithmetic modulo 256.
proof fn lemma_wrap_add_sub(x: u8, a: u8, b: u8)
    ensures
        x.wrapping_add(a).wrapping_sub(b) == wrap_u8(x + a - b),
{
    let s = x.wrapping_add(a);
    assert(s == wrap_u8(x + a));
    lemma_add_mod_noop_right(-b, x + a, 256);
}

/// Adding, subtracting and adding again with wraparound is arithmetic modulo 256.
proof fn lemma_wrap_add_sub_add(x: u8, a: u8, b: u8, c: u8)
    ensures
        x.wrapping_add(a).wrapping_sub(b).wrapping_add(c) == wrap_u8(x + a - b + c),
{
    lemma_wrap_add_sub(x, a, b);
    lemma_add_mod_noop_right(c as int, x + a - b, 256);
}

/// Computes the pixel that a chunk yields from the current pixel and the cache.
pub(crate) fn reconstruct(curr: Pixel, cache: &[Pixel; 64], c: Chunk) -> (p: Pixel)
    requires
        c.wf(),
    ensures
        p == next_pixel((PixelState { current: curr, cache: cache@ }), c),
{
    let p = match c {
        Chunk::RGB(r, g, b) => Pixel { r, g, b, a: curr.a },
        Chunk::RGBA(r, g, b, a) => Pixel { r, g, b, a },
        Chunk::INDEX(i) => cache[i as usize],
        Chunk::DIFF(dr, dg, db) => Pixel {
            r: curr.r.wrapping_add(dr).wrapping_sub(2),
            g: curr.g.wrapping_add(dg).wrapping_sub(2),
            b: curr.b.wrapping_add(db).wrapping_sub(2),
            a: curr.a,
        },
        Chunk::LUMA(dg, dr_dg, db_dg) => Pixel {
            r: curr.r.wrapping_add(dg).wrapping_sub(40).wrapping_add(dr_dg),
            g: curr.g.wrapping_add(dg).wrapping_sub(32),
            b: curr.b.wrapping_add(dg).wrapping_sub(40).wrapping_add(db_dg),
            a: curr.a,
        },
        Chunk::RUN(_) => curr,
    };
    proof {
        match c {
            Chunk::DIFF(dr, dg, db) => {
                lemma_wrap_add_sub(curr.r, dr, 2);
                lemma_wrap_add_sub(curr.g, dg, 2);
                lemma_wrap_add_sub(curr.b, db, 2);
            },
            Chunk::LUMA(dg, dr_dg, db_dg) => {
                lemma_wrap_add_sub_add(curr.r, dg, 40, dr_dg);
                lemma_wrap_add_sub(curr.g, dg, 32);
                lemma_wrap_add_sub_add(curr.b, dg, 40, db_dg);
            },
            _ => {},
        }
    }
    p
}

/// Applies one chunk to the current pixel and the cache, returning the
/// pixel that the chunk yields.
pub(crate) fn apply_chunk(curr: &mut Pixel, cache: &mut [Pixel; 64], c: Chunk) -> (p: Pixel)
    requires
        c.wf(),
    ensures
        p == next_pixel((PixelState { current: *old(curr), cache: old(cache)@ }), c),
        (PixelState { current: *final(curr), cache: final(cache)@ }) == step(
            (PixelState { current: *old(curr), cache: old(cache)@ }),
            c,
        ),
{
    let ghost before = PixelState { current: *curr, cache: cache@ };
    let new = reconstruct(*curr, cache, c);
    match c {
        Chunk::RUN(_) => {},
        _ => {
            cache[hash(new)] = new;
        },
    }
    *curr = new;
    assert(PixelState { current: *curr, cache: cache@ } =~= step(before, c));
    new
}

/// Appends `n` copies of `t`.
pub(crate) fn push_copies<T: Copy>(out: &mut Vec<T>, t: T, n: usize)
    ensures
        final(out)@ == old(out)@ + Seq::new(n as nat, |_i: int| t),
{
    let mut k: usize = 0;
    while k < n
        invariant
            k <= n,
            out@ == old(out)@ + Seq::new(k as nat, |_i: int| t),
        decreases n - k,
    {
        out.push(t);
        k = k + 1;
        assert(out@ =~= old(out)@ + Seq::new(k as nat, |_i: int| t));
    }
}

/// Pull-based reconstruction over a sequence of chunks: each call of `next`
/// hands out one pixel, decoding one more chunk when the pixels decoded so far
/// are used up.
pub struct Decoder {
    chunks: Vec<Chunk>,
    consumed: usize,
    curr: Pixel,
    pub index: [Pixel; 64],
    pixels: Vec<TrackedPix>,
    top: usize,
}

impl Decoder {
    /// The chunks that the decoder reads.
    pub closed spec fn chunks(&self) -> Seq<Chunk> {
        self.chunks@
    }

    /// How many chunks have been decoded.
    pub closed spec fn consumed(&self) -> nat {
        self.consumed as nat
    }

    /// How many pixels have been handed out.
    pub closed spec fn position(&self) -> nat {
        self.top as nat
    }

    /// The pixels decoded so far, handed out or not.
    pub closed spec fn produced(&self) -> Seq<TrackedPix> {
        self.pixels@
    }

    /// The current pixel and the running cache.
    pub closed spec fn state(&self) -> PixelState {
        PixelState { current: self.curr, cache: self.index@ }
    }

    /// The decoded pixels and the state are those of the chunks consumed so far.
    pub closed spec fn wf(&self) -> bool {
        &&& forall|i: int| 0 <= i < self.chunks@.len() ==> (#[trigger] self.chunks@[i]).wf()
        &&& self.consumed <= self.chunks@.len()
        &&& self.state() == state_after(self.chunks@.take(self.consumed as int))
        &&& self.pixels@ == tracked_after(self.chunks@.take(self.consumed as int))
        &&& self.top <= self.pixels@.len()
    }

    /// A decoder at the start of the given chunks.
    pub fn new(chunks: Vec<Chunk>) -> (d: Decoder)
        requires
            forall|i: int| 0 <= i < chunks@.len() ==> (#[trigger] chunks@[i]).wf(),
        ensures
            d.wf(),
            d.chunks() == chunks@,
            d.consumed() == 0,
            d.position() == 0,
            d.state() == initial_state(),
            d.produced() == Seq::<TrackedPix>::empty(),
    {
        let curr = Pixel { r: 0, g: 0, b: 0, a: 255 };
        let index = [Pixel { r: 0, g: 0, b: 0, a: 0 }; 64];
        let pixels = Vec::new();
        let top: usize = 0;
        let d = Decoder { chunks, consumed: 0, curr, index, pixels, top };
        assert(d.index@ =~= initial_state().cache);
        assert(d.chunks@.take(0) =~= Seq::<Chunk>::empty());
        reveal(tracked_after);
        d
    }

    /// Decodes the next chunk, if any is left, and returns it.
    pub fn decode_next_chunk(&mut self) -> (r: Option<Chunk>)
        requires
            old(self).wf(),
        ensures
            final(self).wf(),
            final(self).chunks() == old(self).chunks(),
            final(self).position() == old(self).position(),
            old(self).consumed() < old(self).chunks().len() ==> {
                &&& r == Some(old(self).chunks()[old(self).consumed() as int])
                &&& final(self).consumed() == old(self).consumed() + 1
                &&& final(self).state() == step(old(self).state(), r->0)
                &&& final(self).produced() == old(self).produced() + emitted_tracked(
                    old(self).state(),
                    r->0,
                )
            },
            old(self).consumed() >= old(self).chunks().len() ==> {
                &&& r is None
                &&& *final(self) == *old(self)
            },
    {
        if self.consumed < self.chunks.len() {
            let ghost before = self.state();
            let chunk = self.chunks[self.consumed];
            let new = apply_chunk(&mut self.curr, &mut self.index, chunk);
            let count: usize = match chunk {
                Chunk::RUN(n) => n as usize + 1,
                _ => 1,
            };
            push_copies(&mut self.pixels, TrackedPix { pix: new, from: chunk }, count);
            self.consumed = self.consumed + 1;
            proof {
                let s = self.chunks@;
                assert(s.take(self.consumed as int).drop_last() =~= s.take(self.consumed - 1));
                reveal(tracked_after);
                assert(self.pixels@ =~= tracked_after(s.take(self.consumed as int)));
            }
            Some(chunk)
        } else {
            None
        }
    }

    /// Hands out the next pixel of the image, or `None` once every chunk has
    /// been decoded and every pixel handed out.
    pub fn next(&mut self) -> (r: Option<TrackedPix>)
        requires
            old(self).wf(),
        ensures
            final(self).wf(),
            final(self).chunks() == old(self).chunks(),
            r == (if old(self).position() < tracked_after(old(self).chunks()).len() {
                Some(tracked_after(old(self).chunks())[old(self).position() as int])
            } else {
                None
            }),
            final(self).position() == old(self).position() + (if r is Some {
                1nat
            } else {
                0nat
            }),
    {
        let ghost s = self.chunks@;
        let ghost full = tracked_after(s);
        proof {
            lemma_tracked_prefix(s, self.consumed as int, s.len() as int);
            assert(s.take(s.len() as int) =~= s);
        }
        if self.top >= self.pixels.len() {
            if self.consumed >= self.chunks.len() {
                proof {
                    assert(s.take(self.consumed as int) =~= s);
                }
                return None;
            }
            let ghost c = s[self.consumed as int];
            let ghost st = self.state();
            let ghost len0 = self.pixels@.len();
            let _ = self.decode_next_chunk();
            proof {
                assert(self.pixels@ == tracked_after(s.take(self.consumed - 1)) + emitted_tracked(st, c));
                assert(emitted_tracked(st, c).len() >= 1);

                lemma_tracked_prefix(s, self.consumed as int, s.len() as int);
            }
        }
        if self.top < self.pixels.len() {
            let p = self.pixels[self.top];
            self.top = self.top + 1;
            Some(p)
        } else {
            None
        }
    }
}

} // verus!
