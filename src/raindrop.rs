use crate::color::{channel_sum, Color};
use rand::Rng;
use vstd::prelude::*;

verus! {

/// The way a ripple travels along the strip.
#[derive(Clone, Copy, Debug, PartialEq, Eq, Structural)]
pub enum RipleDirection {
    Left,
    Right,
}

/// A ripple: its position, its colour and its direction.
pub type Riple = (usize, Color, RipleDirection);

/// The ripples alive on a strip painted with raindrops.
pub struct RaindropState {
    pub riples: Vec<Riple>,
}

/// A ripple's colour one step later: each channel at three quarters,
/// rounded down a quarter first.
pub open spec fn faded(c: Color) -> Color {
    Color { r: (c.r / 4 * 3) as u8, g: (c.g / 4 * 3) as u8, b: (c.b / 4 * 3) as u8 }
}

/// Two colours added channel by channel, saturating.
pub open spec fn color_sum(a: Color, b: Color) -> Color {
    Color { r: channel_sum(a.r, b.r), g: channel_sum(a.g, b.g), b: channel_sum(a.b, b.b) }
}

/// Where a ripple moves on a strip of `len` LEDs; `None` when it leaves it.
pub open spec fn ripple_target(p: usize, d: RipleDirection, len: nat) -> Option<usize> {
    match d {
        RipleDirection::Left => if p < 1 || p - 1 >= len {
            None
        } else {
            Some((p - 1) as usize)
        },
        RipleDirection::Right => if p + 1 >= len {
            None
        } else {
            Some((p + 1) as usize)
        },
    }
}

/// The strip and the ripples after moving `riples`, in order, over `leds`.
pub open spec fn spread(leds: Seq<Color>, riples: Seq<Riple>) -> (Seq<Color>, Seq<Riple>)
    decreases riples.len(),
{
    if riples.len() == 0 {
        (leds, Seq::empty())
    } else {
        let (l, n) = spread(leds, riples.drop_last());
        let (p, c, d) = riples.last();
        match ripple_target(p, d, leds.len()) {
            Some(t) => (l.update(t as int, color_sum(l[t as int], faded(c))), n.push((t, faded(c), d))),
            None => (l, n),
        }
    }
}

/// A strip of `n` black LEDs.
pub open spec fn black(n: nat) -> Seq<Color> {
    Seq::new(n, |i: int| Color { r: 0, g: 0, b: 0 })
}

/// The colour of a new drop, by its number in the palette.
pub open spec fn drop_color(k: usize) -> Color {
    if k == 0 {
        Color { r: 255, g: 0, b: 255 }
    } else if k == 1 {
        Color { r: 255, g: 255, b: 0 }
    } else if k == 2 {
        Color { r: 0, g: 255, b: 255 }
    } else {
        Color { r: 255, g: 255, b: 255 }
    }
}

/// The strip and the ripples after the drops `(position, palette number)` fall, in order.
pub open spec fn rain(leds: Seq<Color>, riples: Seq<Riple>, drops: Seq<(usize, usize)>) -> (Seq<Color>, Seq<Riple>)
    decreases drops.len(),
{
    if drops.len() == 0 {
        (leds, riples)
    } else {
        let (l, r) = rain(leds, riples, drops.drop_last());
        let (p, k) = drops.last();
        (
            l.update(p as int, drop_color(k)),
            r.push((p, drop_color(k), RipleDirection::Left)).push((p, drop_color(k), RipleDirection::Right)),
        )
    }
}

/// Relies on `rand::thread_rng().gen_range(0..n)`: a value below `n`. It
/// panics on an empty range, hence `n > 0`.
#[verifier::external_body]
fn random_below(n: usize) -> (r: usize)
    requires
        n > 0,
    ensures
        r < n,
{
    rand::thread_rng().gen_range(0..n)
}

fn faded_color(c: Color) -> (f: Color)
    ensures
        f == faded(c),
{
    Color { r: c.r / 4 * 3, g: c.g / 4 * 3, b: c.b / 4 * 3 }
}

/// Clears the strip and moves every ripple one LED on, fading it and adding
/// it onto the LED it reaches; ripples that leave the strip are dropped.
pub fn spread_ripples(leds: &mut Vec<Color>, state: &mut RaindropState)
    ensures
        final(leds)@.len() == old(leds)@.len(),
        (final(leds)@, final(state).riples@) == spread(black(old(leds)@.len()), old(state).riples@),
{
    let len = leds.len();
    let mut i: usize = 0;
    while i < len
        invariant
            leds@.len() == len,
            i <= len,
            forall|j: int| 0 <= j < i ==> leds@[j] == (Color { r: 0, g: 0, b: 0 }),
        decreases len - i,
    {
        leds.set(i, Color::new());
        i = i + 1;
    }
    proof {
        assert(leds@ =~= black(len as nat));
    }
    let ghost start = leds@;
    let mut next: Vec<Riple> = Vec::new();
    let mut k: usize = 0;
    while k < state.riples.len()
        invariant
            k <= state.riples@.len(),
            state.riples@ == old(state).riples@,
            start.len() == len,
            (leds@, next@) == spread(start, state.riples@.take(k as int)),
            leds@.len() == len,
        decreases state.riples@.len() - k,
    {
        let (p, c, d) = state.riples[k];
        proof {
            assert(state.riples@.take(k + 1).drop_last() =~= state.riples@.take(k as int));
            assert(state.riples@.take(k + 1).last() == (p, c, d));
        }
        let target: Option<usize> = match d {
            RipleDirection::Left => if p < 1 || p - 1 >= len {
                None
            } else {
                Some(p - 1)
            },
            RipleDirection::Right => if len == 0 || p >= len - 1 {
                None
            } else {
                Some(p + 1)
            },
        };
        if let Some(t) = target {
            let f = faded_color(c);
            let mut led = leds[t];
            led.add(&f);
            leds.set(t, led);
            next.push((t, f, d));
        }
        k = k + 1;
    }
    proof {
        assert(state.riples@.take(state.riples@.len() as int) =~= state.riples@);
    }
    state.riples = next;
}

/// Lets the drops `(position, palette number)` fall, in order: each paints
/// its LED and starts a ripple each way.
pub fn drop_raindrops(leds: &mut Vec<Color>, state: &mut RaindropState, drops: &Vec<(usize, usize)>)
    requires
        forall|i: int| 0 <= i < drops@.len() ==> (#[trigger] drops@[i]).0 < old(leds)@.len(),
    ensures
        final(leds)@.len() == old(leds)@.len(),
        (final(leds)@, final(state).riples@) == rain(old(leds)@, old(state).riples@, drops@),
{
    let ghost l0 = leds@;
    let ghost r0 = state.riples@;
    let mut i: usize = 0;
    while i < drops.len()
        invariant
            i <= drops@.len(),
            forall|j: int| 0 <= j < drops@.len() ==> (#[trigger] drops@[j]).0 < l0.len(),
            leds@.len() == l0.len(),
            (leds@, state.riples@) == rain(l0, r0, drops@.take(i as int)),
        decreases drops@.len() - i,
    {
        let (p, k) = drops[i];
        proof {
            assert(drops@.take(i + 1).drop_last() =~= drops@.take(i as int));
            assert(drops@.take(i + 1).last() == (p, k));
        }
        let c = if k == 0 {
            Color { r: 255, g: 0, b: 255 }
        } else if k == 1 {
            Color { r: 255, g: 255, b: 0 }
        } else if k == 2 {
            Color { r: 0, g: 255, b: 255 }
        } else {
            Color { r: 255, g: 255, b: 255 }
        };
        leds.set(p, c);
        state.riples.push((p, c, RipleDirection::Left));
        state.riples.push((p, c, RipleDirection::Right));
        i = i + 1;
    }
    proof {
        assert(drops@.take(drops@.len() as int) =~= drops@);
    }
}

/// One frame of the raindrop effect: ripples spread, then, when `raining`,
/// `rain_speed` drops fall at random places in random palette colours.
pub fn update_raindrop(leds: &mut Vec<Color>, rain_speed: u32, raining: bool, state: &mut RaindropState)
    requires
        raining && rain_speed > 0 ==> old(leds)@.len() > 0,
    ensures
        final(leds)@.len() == old(leds)@.len(),
        exists|drops: Seq<(usize, usize)>|
            drops.len() == (if raining {
                rain_speed as int
            } else {
                0
            }) && (forall|i: int| 0 <= i < drops.len() ==> (#[trigger] drops[i]).0 < old(leds)@.len() && drops[i].1 < 4)
                && (final(leds)@, final(state).riples@) == ({
                let (l, r) = spread(black(old(leds)@.len()), old(state).riples@);
                rain(l, r, drops)
            }),
{
    spread_ripples(leds, state);
    let mut drops: Vec<(usize, usize)> = Vec::new();
    if raining {
        let mut n: u32 = 0;
        while n < rain_speed
            invariant
                n <= rain_speed,
                rain_speed > 0 ==> leds@.len() > 0,
                drops@.len() == n,
                forall|i: int| 0 <= i < drops@.len() ==> (#[trigger] drops@[i]).0 < leds@.len() && drops@[i].1 < 4,
            decreases rain_speed - n,
        {
            let p = random_below(leds.len());
            let k = random_below(4);
            drops.push((p, k));
            n = n + 1;
        }
    }
    drop_raindrops(leds, state, &drops);
}

/// Paints every LED with one colour.
pub fn update_moody(leds: &mut Vec<Color>, color: Color)
    ensures
        final(leds)@ == Seq::new(old(leds)@.len(), |i: int| color),
{
    let mut i: usize = 0;
    while i < leds.len()
        invariant
            i <= leds@.len(),
            leds@.len() == old(leds)@.len(),
            forall|j: int| 0 <= j < i ==> leds@[j] == color,
        decreases leds@.len() - i,
    {
        leds.set(i, color);
        i = i + 1;
    }
    proof {
        assert(leds@ =~= Seq::new(old(leds)@.len(), |i: int| color));
    }
}

} // verus!
