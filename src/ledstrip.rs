use crate::color::Color;
use vstd::prelude::*;

verus! {

/// An inclusive range `(first, last)` of LED indices.
pub type EffectInterval = (usize, usize);

/// What a strip holds, as mathematical values.
pub struct LedStripView {
    pub size: nat,
    pub colors: Seq<Color>,
    pub segments: Seq<(usize, EffectInterval)>,
    pub used: nat,
}

/// Number of LEDs that a segment covers (`last + 1 - first`).
pub open spec fn width(seg: (usize, EffectInterval)) -> int {
    seg.1.1 + 1 - seg.1.0
}

/// Sum of the widths of a list of segments.
pub open spec fn total_width(segs: Seq<(usize, EffectInterval)>) -> int
    decreases segs.len(),
{
    if segs.len() == 0 {
        0
    } else {
        total_width(segs.drop_last()) + width(segs.last())
    }
}

/// The segments, in their order, whose last index is below `n`.
pub open spec fn kept_below(segs: Seq<(usize, EffectInterval)>, n: nat) -> Seq<
    (usize, EffectInterval),
>
    decreases segs.len(),
{
    if segs.len() == 0 {
        segs
    } else if segs.last().1.1 < n {
        kept_below(segs.drop_last(), n).push(segs.last())
    } else {
        kept_below(segs.drop_last(), n)
    }
}

/// Every segment ends before the next one starts, each is well formed
/// (`first <= last + 1`), and all lie below `top`.
pub open spec fn ordered_within(segs: Seq<(usize, EffectInterval)>, top: int) -> bool {
    &&& forall|i: int| 0 <= i < segs.len() ==> segs[i].1.0 <= segs[i].1.1 + 1
    &&& forall|i: int| 0 <= i < segs.len() ==> segs[i].1.1 + 1 <= top
    &&& forall|i: int, j: int|
        0 <= i < j < segs.len() ==> #[trigger] segs[i].1.1 + 1 <= #[trigger] segs[j].1.0
}

/// LED `k` lies in the segment.
pub open spec fn covers(seg: (usize, EffectInterval), k: int) -> bool {
    seg.1.0 <= k <= seg.1.1
}

/// No LED belongs to two segments.
pub open spec fn pairwise_disjoint(segs: Seq<(usize, EffectInterval)>) -> bool {
    forall|i: int, j: int, k: int|
        0 <= i < segs.len() && 0 <= j < segs.len() && i != j && #[trigger] covers(segs[i], k)
            ==> !#[trigger] covers(segs[j], k)
}

/// The colours after resizing to `n` LEDs: cut, or padded with black.
pub open spec fn resized_colors(colors: Seq<Color>, n: nat) -> Seq<Color> {
    if n <= colors.len() {
        colors.take(n as int)
    } else {
        colors + Seq::new((n - colors.len()) as nat, |i: int| Color { r: 0, g: 0, b: 0 })
    }
}

/// A strip's invariant: one colour per LED, segments in order and inside the
/// strip, all of them below the next free index.
pub open spec fn strip_ok(v: LedStripView) -> bool {
    &&& v.colors.len() == v.size
    &&& ordered_within(v.segments, v.size as int)
    &&& forall|i: int| 0 <= i < v.segments.len() ==> #[trigger] v.segments[i].1.1 + 1 <= v.used
}

/// The colours with `seg` written over them from index `lo` on.
pub open spec fn overwritten(colors: Seq<Color>, lo: int, seg: Seq<Color>) -> Seq<Color> {
    colors.take(lo) + seg + colors.skip(lo + seg.len())
}

/// A strip after `set_led_count(n)`.
pub open spec fn resized(v: LedStripView, n: nat) -> LedStripView {
    LedStripView {
        size: n,
        colors: resized_colors(v.colors, n),
        segments: kept_below(v.segments, n),
        used: v.used,
    }
}

/// A strip after a segment of `size` LEDs was appended for `effect_id`.
pub open spec fn with_segment(v: LedStripView, effect_id: usize, size: nat) -> LedStripView {
    LedStripView {
        segments: v.segments.push((effect_id, (v.used as usize, (v.used + size - 1) as usize))),
        used: v.used + size,
        ..v
    }
}

/// A strip of LEDs with its colour buffer and the segments that effects paint.
///
/// Segments are appended one after the other from index 0; `used_led_count`
/// is where the next one starts.
#[derive(Debug)]
pub struct LedStrip {
    size: usize,
    colors: Vec<Color>,
    effects: Vec<(usize, EffectInterval)>,
    used_led_count: usize,
}

impl View for LedStrip {
    type V = LedStripView;

    closed spec fn view(&self) -> LedStripView {
        LedStripView {
            size: self.size as nat,
            colors: self.colors@,
            segments: self.effects@,
            used: self.used_led_count as nat,
        }
    }
}

proof fn lemma_kept_below(segs: Seq<(usize, EffectInterval)>, n: nat, top: int)
    requires
        ordered_within(segs, top),
    ensures
        ordered_within(kept_below(segs, n), top),
        kept_below(segs, n).len() <= segs.len(),
        forall|i: int|
            0 <= i < kept_below(segs, n).len() ==> (#[trigger] kept_below(segs, n)[i]).1.1 < n,
        forall|i: int|
            0 <= i < kept_below(segs, n).len() ==> exists|j: int|
                0 <= j < segs.len() && #[trigger] kept_below(segs, n)[i] == segs[j],
    decreases segs.len(),
{
    if segs.len() > 0 {
        let rest = segs.drop_last();
        assert(ordered_within(rest, top));
        lemma_kept_below(rest, n, top);
        let k = kept_below(rest, n);
        assert forall|i: int| 0 <= i < k.len() implies (#[trigger] k[i]).1.1 + 1 <= segs.last().1.0 by {
            let j = choose|j: int| 0 <= j < rest.len() && k[i] == rest[j];
            assert(segs[j] == rest[j]);
        }
        assert forall|i: int|
            0 <= i < kept_below(segs, n).len() implies exists|j: int|
                0 <= j < segs.len() && #[trigger] kept_below(segs, n)[i] == segs[j] by {
            if i < k.len() {
                let j = choose|j: int| 0 <= j < rest.len() && k[i] == rest[j];
                assert(kept_below(segs, n)[i] == segs[j]);
            } else {
                assert(kept_below(segs, n)[i] == segs[segs.len() - 1]);
            }
        }
    }
}

proof fn lemma_kept_below_idempotent(segs: Seq<(usize, EffectInterval)>, n: nat)
    ensures
        kept_below(kept_below(segs, n), n) == kept_below(segs, n),
    decreases segs.len(),
{
    if segs.len() > 0 {
        lemma_kept_below_idempotent(segs.drop_last(), n);
        let k = kept_below(segs.drop_last(), n);
        if segs.last().1.1 < n {
            assert(k.push(segs.last()).drop_last() =~= k);
        }
    }
}

proof fn lemma_total_width_bound(segs: Seq<(usize, EffectInterval)>, base: int, top: int)
    requires
        ordered_within(segs, top),
        base <= top,
        forall|i: int| 0 <= i < segs.len() ==> base <= #[trigger] segs[i].1.0,
    ensures
        total_width(segs) <= top - base,
    decreases segs.len(),
{
    if segs.len() > 0 {
        let rest = segs.drop_last();
        let last = segs.last();
        assert(ordered_within(rest, last.1.0 as int)) by {
            assert forall|i: int| 0 <= i < rest.len() implies rest[i].1.1 + 1 <= last.1.0 by {
                assert(segs[i] == rest[i]);
                assert(segs[segs.len() - 1] == last);
            }
        }
        lemma_total_width_bound(rest, base, last.1.0 as int);
    }
}

impl LedStrip {
    /// The strip's invariant.
    pub open spec fn wf(&self) -> bool {
        strip_ok(self@)
    }

    /// An empty strip: no LEDs and no segments.
    pub fn new() -> (s: LedStrip)
        ensures
            s.wf(),
            s@.size == 0,
            s@.colors.len() == 0,
            s@.segments.len() == 0,
            s@.used == 0,
    {
        LedStrip { size: 0, colors: Vec::new(), effects: Vec::new(), used_led_count: 0 }
    }

    /// Number of LEDs.
    pub fn size(&self) -> (r: usize)
        ensures
            r == self@.size,
    {
        self.size
    }

    /// Index where the next segment would start.
    pub fn used_led_count(&self) -> (r: usize)
        ensures
            r == self@.used,
    {
        self.used_led_count
    }

    /// The colour buffer.
    pub fn colors(&self) -> (r: &Vec<Color>)
        ensures
            r@ == self@.colors,
    {
        &self.colors
    }

    /// The segments, in the order they were added: `(effect_id, (first, last))`.
    pub fn effects(&self) -> (r: &Vec<(usize, EffectInterval)>)
        ensures
            r@ == self@.segments,
    {
        &self.effects
    }

    /// Resizes the strip to `size` LEDs. Segments whose last index does not fit
    /// any more are dropped; the colour buffer is cut or padded with black.
    pub fn set_led_count(&mut self, size: usize)
        requires
            old(self).wf(),
        ensures
            final(self).wf(),
            final(self)@ == resized(old(self)@, size as nat),
    {
        let ghost before = self@;
        self.size = size;
        let mut kept: Vec<(usize, EffectInterval)> = Vec::new();
        let mut i: usize = 0;
        while i < self.effects.len()
            invariant
                i <= self.effects.len(),
                self.effects@ == before.segments,
                kept@ == kept_below(self.effects@.subrange(0, i as int), size as nat),
            decreases self.effects.len() - i,
        {
            let seg = self.effects[i];
            proof {
                assert(self.effects@.subrange(0, i + 1).drop_last() =~= self.effects@.subrange(
                    0,
                    i as int,
                ));
            }
            if seg.1.1 < size {
                kept.push(seg);
            }
            i = i + 1;
        }
        proof {
            assert(self.effects@.subrange(0, self.effects.len() as int) =~= self.effects@);
            lemma_kept_below(before.segments, size as nat, before.size as int);
        }
        self.effects = kept;
        if size <= self.colors.len() {
            self.colors.truncate(size);
        } else {
            let ghost start = self.colors@;
            while self.colors.len() < size
                invariant
                    start.len() <= self.colors.len() <= size,
                    self.size == size,
                    self.effects@ == kept_below(before.segments, size as nat),
                    self.used_led_count == before.used,
                    self.colors@ == start + Seq::new(
                        (self.colors.len() - start.len()) as nat,
                        |i: int| Color { r: 0, g: 0, b: 0 },
                    ),
                decreases size - self.colors.len(),
            {
                self.colors.push(Color::new());
                proof {
                    assert(self.colors@ =~= start + Seq::new(
                        (self.colors.len() - start.len()) as nat,
                        |i: int| Color { r: 0, g: 0, b: 0 },
                    ));
                }
            }
        }
        proof {
            assert(self.colors@ =~= resized_colors(before.colors, size as nat));
            let v = self@;
            assert(v.segments == kept_below(before.segments, size as nat));
            assert forall|i: int| 0 <= i < v.segments.len() implies #[trigger] v.segments[i].1.1
                + 1 <= v.used by {
                assert(kept_below(before.segments, size as nat)[i] == v.segments[i]);
                let j = choose|j: int|
                    0 <= j < before.segments.len() && kept_below(before.segments, size as nat)[i]
                        == before.segments[j];
            }
            assert forall|i: int| 0 <= i < v.segments.len() implies v.segments[i].1.1 + 1
                <= v.size by {
                assert(kept_below(before.segments, size as nat)[i].1.1 < size);
            }
        }
    }

    /// Appends a segment of `size` LEDs for `effect_id` right after the last
    /// one. Refuses, leaving the strip as it was, when it would not fit.
    pub fn add_effect(&mut self, effect_id: usize, size: usize) -> (added: bool)
        requires
            old(self).wf(),
            old(self)@.used + size > 0,
        ensures
            final(self).wf(),
            added == (old(self)@.used + size <= old(self)@.size),
            added ==> final(self)@ == with_segment(old(self)@, effect_id, size as nat),
            !added ==> final(self)@ == old(self)@,
    {
        if self.used_led_count > self.size || size > self.size - self.used_led_count {
            return false;
        }
        let interval: EffectInterval = (self.used_led_count, self.used_led_count + size - 1);
        self.effects.push((effect_id, interval));
        self.used_led_count = self.used_led_count + size;
        proof {
            let v = self@;
            assert forall|i: int, j: int|
                0 <= i < j < v.segments.len() implies #[trigger] v.segments[i].1.1 + 1
                <= #[trigger] v.segments[j].1.0 by {
                if j == v.segments.len() - 1 {
                    assert(v.segments[i] == old(self)@.segments[i]);
                }
            }
        }
        true
    }

    /// A copy of the colours from `first` to `last`, both included.
    pub fn segment_colors(&self, first: usize, last: usize) -> (r: Vec<Color>)
        requires
            self.wf(),
            first <= last + 1,
            last < self@.size,
        ensures
            r@ == self@.colors.subrange(first as int, last + 1),
    {
        let mut r: Vec<Color> = Vec::new();
        let mut i: usize = first;
        while i <= last
            invariant
                first <= i <= last + 1,
                last < self.colors.len(),
                r@ == self@.colors.subrange(first as int, i as int),
            decreases last + 1 - i,
        {
            r.push(self.colors[i]);
            proof {
                assert(r@ =~= self@.colors.subrange(first as int, i + 1));
            }
            i = i + 1;
        }
        r
    }

    /// Writes `seg` over the colours from index `first` on.
    pub fn write_segment(&mut self, first: usize, seg: &Vec<Color>)
        requires
            old(self).wf(),
            first + seg@.len() <= old(self)@.size,
        ensures
            final(self).wf(),
            final(self)@ == (LedStripView {
                colors: overwritten(old(self)@.colors, first as int, seg@),
                ..old(self)@
            }),
    {
        let ghost start = self.colors@;
        let mut i: usize = 0;
        while i < seg.len()
            invariant
                i <= seg.len(),
                first + seg@.len() <= self.colors.len(),
                self.size == old(self).size,
                self.effects == old(self).effects,
                self.used_led_count == old(self).used_led_count,
                self.colors.len() == start.len(),
                self.colors@ == start.take(first as int) + seg@.take(i as int) + start.skip(
                    first + i,
                ),
            decreases seg.len() - i,
        {
            self.colors.set(first + i, seg[i]);
            proof {
                assert(self.colors@ =~= start.take(first as int) + seg@.take(i + 1) + start.skip(
                    first + i + 1,
                ));
            }
            i = i + 1;
        }
        proof {
            assert(seg@.take(seg.len() as int) =~= seg@);
        }
    }
}

/// For a strip of `N` LEDs the segments together cover at most `N` LEDs, and
/// no LED belongs to two of them.
pub proof fn lemma_segments_fit(v: LedStripView)
    requires
        strip_ok(v),
    ensures
        total_width(v.segments) <= v.size,
        pairwise_disjoint(v.segments),
{
    lemma_total_width_bound(v.segments, 0, v.size as int);
    assert forall|i: int, j: int, k: int|
        0 <= i < v.segments.len() && 0 <= j < v.segments.len() && i != j && #[trigger] covers(
            v.segments[i],
            k,
        ) implies !#[trigger] covers(v.segments[j], k) by {
        if i < j {
            assert(v.segments[i].1.1 + 1 <= v.segments[j].1.0);
        } else {
            assert(v.segments[j].1.1 + 1 <= v.segments[i].1.0);
        }
    }
}

/// Resizing twice to the same size changes nothing the second time.
pub proof fn lemma_resize_twice(v: LedStripView, n: nat)
    ensures
        resized(resized(v, n), n) == resized(v, n),
{
    lemma_kept_below_idempotent(v.segments, n);
    let c = resized_colors(v.colors, n);
    assert(c.len() == n);
    assert(resized_colors(c, n) =~= c);
}

} // verus!
