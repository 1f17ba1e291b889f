use vstd::prelude::*;

verus! {

/// One LED colour: three bytes, red, green and blue.
#[derive(Clone, Copy, Debug, PartialEq, Eq, Structural)]
pub struct Color {
    pub r: u8,
    pub g: u8,
    pub b: u8,
}

/// Saturating addition of one channel.
pub open spec fn channel_sum(a: u8, b: u8) -> u8 {
    if a as int + b as int > 255 {
        255
    } else {
        (a + b) as u8
    }
}

/// The three bytes that a colour puts on the wire, in order red, green, blue.
pub open spec fn color_bytes(c: Color) -> Seq<u8> {
    seq![c.r, c.g, c.b]
}

/// The byte stream of a whole frame: each colour's three bytes, in order.
pub open spec fn frame_bytes(colors: Seq<Color>) -> Seq<u8>
    decreases colors.len(),
{
    if colors.len() == 0 {
        Seq::empty()
    } else {
        frame_bytes(colors.drop_last()) + color_bytes(colors.last())
    }
}

impl Color {
    /// The colour black, which is also every LED's starting colour.
    pub fn new() -> (c: Color)
        ensures
            c == (Color { r: 0, g: 0, b: 0 }),
    {
        Color { r: 0, g: 0, b: 0 }
    }

    /// Adds `rhs` channel by channel, saturating at 255.
    pub fn add(&mut self, rhs: &Color)
        ensures
            final(self).r == channel_sum(old(self).r, rhs.r),
            final(self).g == channel_sum(old(self).g, rhs.g),
            final(self).b == channel_sum(old(self).b, rhs.b),
    {
        self.r = self.r.saturating_add(rhs.r);
        self.g = self.g.saturating_add(rhs.g);
        self.b = self.b.saturating_add(rhs.b);
    }
}


proof fn lemma_frame_bytes_len(colors: Seq<Color>)
    ensures
        frame_bytes(colors).len() == 3 * colors.len(),
    decreases colors.len(),
{
    if colors.len() > 0 {
        lemma_frame_bytes_len(colors.drop_last());
    }
}

/// The wire form of a strip: the colours reinterpreted as packed bytes
/// `r0 g0 b0 r1 g1 b1 ...`, three per LED.
pub fn pack_colors(colors: &Vec<Color>) -> (bytes: Vec<u8>)
    requires
        3 * colors.len() <= usize::MAX,
    ensures
        bytes@ == frame_bytes(colors@),
        bytes@.len() == 3 * colors@.len(),
{
    let mut bytes: Vec<u8> = Vec::new();
    let mut i: usize = 0;
    while i < colors.len()
        invariant
            i <= colors.len(),
            bytes@ == frame_bytes(colors@.subrange(0, i as int)),
        decreases colors.len() - i,
    {
        let c = colors[i];
        bytes.push(c.r);
        bytes.push(c.g);
        bytes.push(c.b);
        proof {
            assert(colors@.subrange(0, i + 1).drop_last() =~= colors@.subrange(0, i as int));
            assert(bytes@ =~= frame_bytes(colors@.subrange(0, i + 1)));
        }
        i = i + 1;
    }
    proof {
        assert(colors@.subrange(0, colors.len() as int) =~= colors@);
        lemma_frame_bytes_len(colors@);
    }
    bytes
}

/// Reads `count` colours back from packed bytes. Fails unless there are
/// exactly three bytes per colour.
pub fn unpack_colors(data: &Vec<u8>, count: usize) -> (colors: Option<Vec<Color>>)
    ensures
        colors is Some <==> data@.len() == 3 * count,
        colors matches Some(v) ==> v@.len() == count && frame_bytes(v@) == data@,
{
    if count > data.len() {
        return None;
    }
    let rest = data.len() - count;
    if rest % 2 != 0 || rest / 2 != count {
        return None;
    }
    let mut colors: Vec<Color> = Vec::new();
    let mut i: usize = 0;
    let mut j: usize = 0;
    while i < count
        invariant
            i <= count,
            j == 3 * i,
            data@.len() == 3 * count,
            colors@.len() == i,
            frame_bytes(colors@) == data@.subrange(0, 3 * i),
        decreases count - i,
    {
        assert(j + 3 <= data.len());
        let c = Color { r: data[j], g: data[j + 1], b: data[j + 2] };
        let ghost before = colors@;
        colors.push(c);
        proof {
            assert(colors@.drop_last() =~= before);
            assert(data@.subrange(0, 3 * (i + 1)) =~= data@.subrange(0, 3 * i) + color_bytes(c));
        }
        i = i + 1;
        j = j + 3;
    }
    proof {
        assert(data@.subrange(0, 3 * count) =~= data@);
    }
    Some(colors)
}

/// A frame's bytes determine its colours: two colour sequences that pack to
/// the same bytes are equal, so `unpack_colors` gives back what `pack_colors`
/// was given.
pub proof fn lemma_pack_unpack(colors: Seq<Color>, other: Seq<Color>)
    requires
        frame_bytes(colors) == frame_bytes(other),
    ensures
        colors == other,
    decreases colors.len(),
{
    lemma_frame_bytes_len(colors);
    lemma_frame_bytes_len(other);
    if colors.len() > 0 {
        let n = frame_bytes(colors).len();
        let a = colors.drop_last();
        let b = other.drop_last();
        lemma_frame_bytes_len(a);
        lemma_frame_bytes_len(b);
        assert(frame_bytes(a) =~= frame_bytes(colors).subrange(0, n - 3));
        assert(frame_bytes(b) =~= frame_bytes(other).subrange(0, n - 3));
        lemma_pack_unpack(a, b);
        assert(frame_bytes(colors)[n - 3] == colors.last().r);
        assert(frame_bytes(colors)[n - 2] == colors.last().g);
        assert(frame_bytes(colors)[n - 1] == colors.last().b);
        assert(frame_bytes(other)[n - 3] == other.last().r);
        assert(frame_bytes(other)[n - 2] == other.last().g);
        assert(frame_bytes(other)[n - 1] == other.last().b);
        assert(colors =~= a.push(colors.last()));
        assert(other =~= b.push(other.last()));
    } else {
        assert(colors =~= other);
    }
}

} // verus!
