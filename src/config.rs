use crate::ledstrip::{resized, with_segment, LedStrip, LedStripView};
use vstd::prelude::*;

verus! {

/// Where an effect's code comes from.
pub enum EffectConfigType {
    /// A script, by its path relative to the script folder.
    Lua(String),
    /// A shared object, by its path.
    Native(String),
}

/// An effect of the configuration, and the settings it uses.
pub struct EffectConfig {
    pub effect_id: usize,
    pub settings_id: usize,
    pub effect: EffectConfigType,
}

/// One segment of a configured strip.
#[derive(Clone, Copy, Debug, PartialEq, Eq, Structural)]
pub struct LedstripEffectConfig {
    pub effect_id: usize,
    pub effect_size: usize,
}

/// A configured strip: its size, the connection it is sent to, and its
/// segments in order.
pub struct LedstripConfig {
    pub id: usize,
    pub connection_id: usize,
    pub size: usize,
    pub effects: Vec<LedstripEffectConfig>,
}

/// Which ports of two audio streams the router joins.
pub enum PortConnections {
    AllInOrder,
    Only(Vec<(String, String)>),
}

/// Audio routing between two streams, handed to the router as it is.
pub struct StreamConnections {
    pub output_stream: String,
    pub input_stream: String,
    pub port_connections: PortConnections,
}

/// A strip with nothing in it.
pub open spec fn empty_strip() -> LedStripView {
    LedStripView { size: 0, colors: Seq::empty(), segments: Seq::empty(), used: 0 }
}

/// The strip that a configuration describes: sized, then its segments added
/// in order; `None` when a segment does not fit or is an empty first segment.
pub open spec fn strip_from(size: nat, effects: Seq<LedstripEffectConfig>) -> Option<LedStripView>
    decreases effects.len(),
{
    if effects.len() == 0 {
        Some(resized(empty_strip(), size))
    } else {
        match strip_from(size, effects.drop_last()) {
            Some(v) => {
                let e = effects.last();
                if v.used + e.effect_size <= v.size && v.used + e.effect_size > 0 {
                    Some(with_segment(v, e.effect_id, e.effect_size as nat))
                } else {
                    None
                }
            },
            None => None,
        }
    }
}

/// Builds the strip that `config` describes, or `None` when its segments do
/// not fit in it.
pub fn build_strip(config: &LedstripConfig) -> (r: Option<LedStrip>)
    ensures
        r is Some <==> strip_from(config.size as nat, config.effects@) is Some,
        r matches Some(s) ==> s.wf() && Some(s@) == strip_from(config.size as nat, config.effects@),
{
    let mut strip = LedStrip::new();
    proof {
        assert(strip@.colors =~= Seq::<crate::color::Color>::empty());
        assert(strip@.segments =~= empty_strip().segments);
        assert(strip@ == empty_strip());
    }
    strip.set_led_count(config.size);
    let mut i: usize = 0;
    while i < config.effects.len()
        invariant
            i <= config.effects.len(),
            strip.wf(),
            strip_from(config.size as nat, config.effects@.take(i as int)) == Some(strip@),
        decreases config.effects.len() - i,
    {
        let e = config.effects[i];
        proof {
            assert(config.effects@.take(i + 1).drop_last() =~= config.effects@.take(i as int));
            assert(config.effects@.take(i + 1).last() == e);
        }
        if e.effect_size == 0 && strip.used_led_count() == 0 {
            proof {
                assert(strip_from(config.size as nat, config.effects@.take(i + 1)) is None);
                lemma_strip_from_stays_none(config.size as nat, config.effects@, i + 1);
            }
            return None;
        }
        if !strip.add_effect(e.effect_id, e.effect_size) {
            proof {
                lemma_strip_from_stays_none(config.size as nat, config.effects@, i + 1);
            }
            return None;
        }
        i = i + 1;
    }
    proof {
        assert(config.effects@.take(config.effects.len() as int) =~= config.effects@);
    }
    Some(strip)
}

proof fn lemma_strip_from_stays_none(size: nat, effects: Seq<LedstripEffectConfig>, n: int)
    requires
        0 <= n <= effects.len(),
        strip_from(size, effects.take(n)) is None,
    ensures
        strip_from(size, effects) is None,
    decreases effects.len() - n,
{
    if n < effects.len() {
        assert(effects.take(n + 1).drop_last() =~= effects.take(n));
        lemma_strip_from_stays_none(size, effects, n + 1);
    } else {
        assert(effects.take(n) =~= effects);
    }
}

/// A strip built from a configuration has the configured size.
pub proof fn lemma_strip_from_size(size: nat, effects: Seq<LedstripEffectConfig>)
    ensures
        strip_from(size, effects) matches Some(v) ==> v.size == size,
    decreases effects.len(),
{
    if effects.len() > 0 {
        lemma_strip_from_size(size, effects.drop_last());
    }
}

} // verus!
