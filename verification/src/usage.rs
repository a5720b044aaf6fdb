//! How often each emoji has been picked, and the ranking boost that follows from it.

use vstd::prelude::*;
use crate::str_map::StrMap;

verus! {

/// The largest boost usage can give an emoji.
pub const BOOST_CAP: u32 = 50;

/// How many times `emoji` was picked, by the counts `counts`.
pub open spec fn count_of(counts: Map<Seq<char>, u32>, emoji: Seq<char>) -> u32 {
    if counts.contains_key(emoji) {
        counts[emoji]
    } else {
        0
    }
}

/// The boost of an emoji: its pick count, capped at `BOOST_CAP`.
pub open spec fn boost_for(counts: Map<Seq<char>, u32>, emoji: Seq<char>) -> u32 {
    let c = count_of(counts, emoji);
    if c < BOOST_CAP {
        c
    } else {
        BOOST_CAP
    }
}

/// The counts after one more pick of `emoji`.
pub open spec fn recorded(counts: Map<Seq<char>, u32>, emoji: Seq<char>) -> Map<Seq<char>, u32> {
    counts.insert(emoji, (count_of(counts, emoji) + 1) as u32)
}

/// Pick counts per emoji.
pub struct UsageStats {
    counts: StrMap<u32>,
}

impl View for UsageStats {
    type V = Map<Seq<char>, u32>;

    closed spec fn view(&self) -> Map<Seq<char>, u32> {
        self.counts@
    }
}

impl Default for UsageStats {
    fn default() -> (s: Self)
        ensures
            s@ == Map::<Seq<char>, u32>::empty(),
    {
        UsageStats { counts: StrMap::new() }
    }
}

impl UsageStats {
    /// Stats holding the given counts.
    pub fn from_counts(counts: StrMap<u32>) -> (s: Self)
        ensures
            s@ == counts@,
    {
        UsageStats { counts }
    }

    /// The counts, per emoji.
    pub fn counts(&self) -> (r: &StrMap<u32>)
        ensures
            r@ == self@,
    {
        &self.counts
    }

    /// Counts one more pick of `emoji`.
    pub fn record(&mut self, emoji: &str)
        requires
            count_of(old(self)@, emoji@) < u32::MAX,
        ensures
            final(self)@ == recorded(old(self)@, emoji@),
    {
        let next: u32 = match self.counts.get(emoji) {
            Some(c) => *c + 1,
            None => 1,
        };
        self.counts.insert(emoji.to_string(), next);
    }

    /// The ranking boost of `emoji`: its pick count, capped at 50.
    pub fn boost(&self, emoji: &str) -> (b: u32)
        ensures
            b == boost_for(self@, emoji@),
    {
        let count: u32 = match self.counts.get(emoji) {
            Some(c) => *c,
            None => 0,
        };
        if count < BOOST_CAP {
            count
        } else {
            BOOST_CAP
        }
    }
}

/// An emoji never picked has no boost.
pub proof fn law_unknown_emoji_has_no_boost(counts: Map<Seq<char>, u32>, emoji: Seq<char>)
    requires
        !counts.contains_key(emoji),
    ensures
        boost_for(counts, emoji) == 0,
{
}

/// The boost never exceeds the cap.
pub proof fn law_boost_is_capped(counts: Map<Seq<char>, u32>, emoji: Seq<char>)
    ensures
        boost_for(counts, emoji) <= BOOST_CAP,
        boost_for(counts, emoji) <= count_of(counts, emoji),
{
}

/// One more pick raises the emoji's boost by one until the cap is reached,
/// and leaves every other emoji's boost as it was.
pub proof fn law_record_raises_boost(counts: Map<Seq<char>, u32>, emoji: Seq<char>, other: Seq<char>)
    requires
        count_of(counts, emoji) < u32::MAX,
        other != emoji,
    ensures
        count_of(recorded(counts, emoji), emoji) == count_of(counts, emoji) + 1,
        boost_for(recorded(counts, emoji), emoji) == if count_of(counts, emoji) < BOOST_CAP {
            count_of(counts, emoji) + 1
        } else {
            BOOST_CAP as int
        },
        boost_for(recorded(counts, emoji), other) == boost_for(counts, other),
{
}

} // verus!
