//! The colour of a run.
use std::collections::hash_map::DefaultHasher;
use std::hash::Hash;
use std::hash::Hasher;
use vstd::prelude::*;
use vstd::std_specs::hash::DefaultHasherAdditionalSpecFns;

verus! {

/// How strong one of the three primary colours is.
#[derive(Clone, Copy, Debug, PartialEq, Eq, Structural)]
pub enum Channel {
    /// As strong as it gets.
    Full,
    /// In between, by the place of the hue in its sixth of the circle.
    Between,
    /// As weak as it gets.
    Least,
}

/// A colour of fixed saturation and brightness: its hue in degrees, and what the
/// hue makes of the primary colours.
#[derive(Clone, Copy, Debug, PartialEq, Eq, Structural)]
pub struct RunColor {
    pub hue: u32,
    pub red: Channel,
    pub green: Channel,
    pub blue: Channel,
}

/// What the `sector`th sixth of the colour circle makes of red, green and blue.
pub open spec fn channels(sector: int) -> (Channel, Channel, Channel) {
    if sector == 0 {
        (Channel::Full, Channel::Between, Channel::Least)
    } else if sector == 1 {
        (Channel::Between, Channel::Full, Channel::Least)
    } else if sector == 2 {
        (Channel::Least, Channel::Full, Channel::Between)
    } else if sector == 3 {
        (Channel::Least, Channel::Between, Channel::Full)
    } else if sector == 4 {
        (Channel::Between, Channel::Least, Channel::Full)
    } else {
        (Channel::Full, Channel::Least, Channel::Between)
    }
}

/// The colour that belongs to a hash.
pub open spec fn color_of(hash: u64) -> RunColor {
    let hue = (hash % 360) as u32;
    let (red, green, blue) = channels(hue as int / 60);
    RunColor { hue, red, green, blue }
}

/// The colour that belongs to a hash.
pub fn color_for_hash(hash: u64) -> (r: RunColor)
    ensures
        r == color_of(hash),
        r.hue < 360,
{
    let hue: u32 = (hash % 360) as u32;
    let (red, green, blue) = if hue < 60 {
        (Channel::Full, Channel::Between, Channel::Least)
    } else if hue < 120 {
        (Channel::Between, Channel::Full, Channel::Least)
    } else if hue < 180 {
        (Channel::Least, Channel::Full, Channel::Between)
    } else if hue < 240 {
        (Channel::Least, Channel::Between, Channel::Full)
    } else if hue < 300 {
        (Channel::Between, Channel::Least, Channel::Full)
    } else {
        (Channel::Full, Channel::Least, Channel::Between)
    };
    RunColor { hue, red, green, blue }
}

/// What a name feeds into a hasher.
pub uninterp spec fn fed(name: Seq<char>) -> Seq<Seq<u8>>;

/// `Hash::hash` for `str`: feeds the name into the hasher, after what it was fed
/// before. Equal names feed the same.
#[verifier::external_body]
fn feed(name: &str, hasher: &mut DefaultHasher)
    ensures
        final(hasher)@ == old(hasher)@ + fed(name@),
{
    name.hash(hasher);
}

/// The hash of a name.
pub open spec fn name_hash(name: Seq<char>) -> u64 {
    DefaultHasher::spec_finish(fed(name))
}

/// The colour of a run, which depends on nothing but its name.
pub fn get_color_for_run(run_name: &str) -> (r: RunColor)
    ensures
        r == color_of(name_hash(run_name@)),
{
    let mut hasher = DefaultHasher::new();
    feed(run_name, &mut hasher);
    assert(hasher@ =~= fed(run_name@));
    let hash: u64 = hasher.finish();
    color_for_hash(hash)
}

/// In every colour one primary colour is full, one is in between and one is least.
pub proof fn law_channels_differ(hash: u64)
    ensures
        color_of(hash).hue < 360,
        color_of(hash).red != color_of(hash).green,
        color_of(hash).green != color_of(hash).blue,
        color_of(hash).red != color_of(hash).blue,
{
}

} // verus!
