//! Detecting the trigger sequence (such as `::`) in the stream of typed characters.

use vstd::prelude::*;
use std::time::{Duration, Instant};
use crate::text::chars_of;

verus! {

/// Keystrokes further apart than this many milliseconds do not form a sequence.
pub const SEQUENCE_TIMEOUT_MS: u128 = 500;

/// The buffer is cut down once it holds more than this many characters.
pub const BUFFER_LIMIT: usize = 20;

/// How many of the oldest characters a cut drops.
pub const BUFFER_DROP: usize = 10;

/// One keystroke: the buffer after it, and whether it completed the trigger.
/// A pause longer than the timeout first empties the buffer; a completed trigger empties it too;
/// an over-long buffer loses its oldest characters.
pub open spec fn key_step(buffer: Seq<char>, trigger: Seq<char>, c: char, elapsed_ms: u128) -> (Seq<char>, bool) {
    let fresh = if elapsed_ms > SEQUENCE_TIMEOUT_MS {
        Seq::<char>::empty()
    } else {
        buffer
    };
    let pushed = fresh.push(c);
    if trigger.is_suffix_of(pushed) {
        (Seq::<char>::empty(), true)
    } else if pushed.len() > BUFFER_LIMIT {
        (pushed.skip(BUFFER_DROP as int), false)
    } else {
        (pushed, false)
    }
}

/// Feeding `keys`, with the pauses `gaps` before them, completes the trigger at some keystroke.
pub open spec fn fires_during(buffer: Seq<char>, trigger: Seq<char>, keys: Seq<char>, gaps: Seq<u128>) -> bool
    decreases keys.len(),
{
    if keys.len() == 0 || gaps.len() == 0 {
        false
    } else {
        let (next, fired) = key_step(buffer, trigger, keys[0], gaps[0]);
        fired || fires_during(next, trigger, keys.drop_first(), gaps.drop_first())
    }
}

/// A keystroke fires exactly when the trigger ends the recent characters (the buffer, or
/// nothing after a long pause, followed by the new character); firing empties the buffer,
/// and a buffer within the limit stays within it.
pub proof fn law_step_shape(buffer: Seq<char>, trigger: Seq<char>, c: char, elapsed_ms: u128)
    ensures
        key_step(buffer, trigger, c, elapsed_ms).1 <==> trigger.is_suffix_of(
            (if elapsed_ms > SEQUENCE_TIMEOUT_MS {
                Seq::<char>::empty()
            } else {
                buffer
            }).push(c),
        ),
        key_step(buffer, trigger, c, elapsed_ms).1 ==> key_step(buffer, trigger, c, elapsed_ms).0.len() == 0,
        buffer.len() <= BUFFER_LIMIT ==> key_step(buffer, trigger, c, elapsed_ms).0.len() <= BUFFER_LIMIT,
{
}

/// After `m` keys of the trigger went in without firing, the buffer ends with them;
/// feeding the rest then fires.
proof fn lemma_rest_of_trigger_fires(buffer: Seq<char>, trigger: Seq<char>, m: int, gaps: Seq<u128>)
    requires
        0 <= m < trigger.len() <= BUFFER_LIMIT - BUFFER_DROP + 1,
        trigger.take(m).is_suffix_of(buffer),
        gaps.len() == trigger.len() - m,
        forall|i: int| 0 <= i < gaps.len() ==> #[trigger] gaps[i] <= SEQUENCE_TIMEOUT_MS,
    ensures
        fires_during(buffer, trigger, trigger.skip(m), gaps),
    decreases trigger.len() - m,
{
    let keys = trigger.skip(m);
    let c = keys[0];
    assert(c == trigger[m]);
    let pushed = buffer.push(c);
    assert(gaps[0] <= SEQUENCE_TIMEOUT_MS);
    let (next, fired) = key_step(buffer, trigger, c, gaps[0]);
    // the pushed buffer ends with the first m + 1 keys of the trigger
    assert(trigger.take(m + 1).is_suffix_of(pushed)) by {
        let t = trigger.take(m + 1);
        assert forall|i: int| 0 <= i < t.len() implies #[trigger] pushed.subrange(pushed.len() - t.len(), pushed.len() as int)[i] == t[i] by {
            if i < m {
                assert(buffer.subrange(buffer.len() - m, buffer.len() as int)[i] == trigger.take(m)[i]);
            }
        }
        assert(pushed.subrange(pushed.len() - t.len(), pushed.len() as int) =~= t);
    }
    if m + 1 == trigger.len() {
        assert(trigger.take(m + 1) == trigger);
        assert(fired);
    } else if !fired {
        assert(trigger.take(m + 1).is_suffix_of(next)) by {
            let t = trigger.take(m + 1);
            if pushed.len() > BUFFER_LIMIT {
                assert(next == pushed.skip(BUFFER_DROP as int));
                assert(next.subrange(next.len() - t.len(), next.len() as int) =~= pushed.subrange(
                    pushed.len() - t.len(),
                    pushed.len() as int,
                ));
            }
        }
        assert(keys.drop_first() == trigger.skip(m + 1));
        assert forall|i: int| 0 <= i < gaps.drop_first().len() implies #[trigger] gaps.drop_first()[i]
            <= SEQUENCE_TIMEOUT_MS by {
            assert(gaps.drop_first()[i] == gaps[i + 1]);
        }
        lemma_rest_of_trigger_fires(next, trigger, m + 1, gaps.drop_first());
    }
}

/// Typing the whole trigger (of at most 11 characters), each key within the timeout of the
/// one before, fires at some key of it, whatever was typed before.
pub proof fn law_typing_trigger_fires(buffer: Seq<char>, trigger: Seq<char>, gaps: Seq<u128>)
    requires
        1 <= trigger.len() <= BUFFER_LIMIT - BUFFER_DROP + 1,
        gaps.len() == trigger.len(),
        forall|i: int| 0 <= i < gaps.len() ==> #[trigger] gaps[i] <= SEQUENCE_TIMEOUT_MS,
    ensures
        fires_during(buffer, trigger, trigger, gaps),
{
    assert(trigger.take(0).is_suffix_of(buffer)) by {
        assert(buffer.subrange(buffer.len() as int, buffer.len() as int) =~= trigger.take(0));
    }
    assert(trigger.skip(0) == trigger);
    lemma_rest_of_trigger_fires(buffer, trigger, 0, gaps);
}

/// Feeding `keys`, with the pauses `gaps` before them: the buffer afterwards and how many
/// keystrokes completed the trigger.
pub open spec fn feed_keys(buffer: Seq<char>, trigger: Seq<char>, keys: Seq<char>, gaps: Seq<u128>) -> (Seq<char>, nat)
    decreases keys.len(),
{
    if keys.len() == 0 {
        (buffer, 0)
    } else {
        let (next, fired) = key_step(buffer, trigger, keys[0], gaps[0]);
        let (end, n) = feed_keys(next, trigger, keys.drop_first(), gaps.drop_first());
        (end, n + if fired { 1nat } else { 0nat })
    }
}

/// Feeding one more key after a run of keys.
proof fn lemma_feed_keys_push(
    buffer: Seq<char>,
    trigger: Seq<char>,
    keys: Seq<char>,
    gaps: Seq<u128>,
    c: char,
    e: u128,
)
    requires
        gaps.len() == keys.len(),
    ensures
        feed_keys(buffer, trigger, keys.push(c), gaps.push(e)) == ({
            let (mid, n) = feed_keys(buffer, trigger, keys, gaps);
            let (next, fired) = key_step(mid, trigger, c, e);
            (next, n + if fired { 1nat } else { 0nat })
        }),
        feed_keys(buffer, trigger, keys, gaps).1 <= keys.len(),
    decreases keys.len(),
{
    if keys.len() > 0 {
        let (next, fired) = key_step(buffer, trigger, keys[0], gaps[0]);
        assert(keys.push(c).drop_first() == keys.drop_first().push(c));
        assert(gaps.push(e).drop_first() == gaps.drop_first().push(e));
        assert(keys.push(c)[0] == keys[0]);
        assert(gaps.push(e)[0] == gaps[0]);
        lemma_feed_keys_push(next, trigger, keys.drop_first(), gaps.drop_first(), c, e);
    } else {
        let (next, fired) = key_step(buffer, trigger, c, e);
        assert(keys.push(c).drop_first() == Seq::<char>::empty());
        assert(gaps.push(e).drop_first() == Seq::<u128>::empty());
        assert(feed_keys(next, trigger, Seq::<char>::empty(), Seq::<u128>::empty()) == (next, 0nat));
        assert(keys.push(c)[0] == c);
        assert(gaps.push(e)[0] == e);
    }
}

/// The text that UTF-16 code units encode (as `String::from_utf16` reads them),
/// or `None` when they hold an unpaired surrogate.
pub open spec fn utf16_decode(units: Seq<u16>) -> Option<Seq<char>>
    decreases units.len(),
{
    if units.len() == 0 {
        Some(Seq::<char>::empty())
    } else {
        let u = units[0];
        if u < 0xD800 || u > 0xDFFF {
            match utf16_decode(units.drop_first()) {
                Some(rest) => Some(seq![u as char] + rest),
                None => None,
            }
        } else if u <= 0xDBFF && units.len() >= 2 && 0xDC00 <= units[1] <= 0xDFFF {
            let c = (0x10000 + (u - 0xD800) * 0x400 + (units[1] - 0xDC00)) as char;
            match utf16_decode(units.subrange(2, units.len() as int)) {
                Some(rest) => Some(seq![c] + rest),
                None => None,
            }
        } else {
            None
        }
    }
}

/// Decoding never yields more characters than there are code units.
proof fn lemma_utf16_decode_len(units: Seq<u16>)
    ensures
        utf16_decode(units) matches Some(text) ==> text.len() <= units.len(),
    decreases units.len(),
{
    if units.len() > 0 {
        lemma_utf16_decode_len(units.drop_first());
        if units.len() >= 2 {
            lemma_utf16_decode_len(units.subrange(2, units.len() as int));
        }
    }
}

/// Feeding any keys at any pauses keeps a buffer that starts within the limit within it.
pub proof fn law_buffer_stays_bounded(buffer: Seq<char>, trigger: Seq<char>, keys: Seq<char>, gaps: Seq<u128>)
    requires
        buffer.len() <= BUFFER_LIMIT,
    ensures
        feed_keys(buffer, trigger, keys, gaps).0.len() <= BUFFER_LIMIT,
    decreases keys.len(),
{
    if keys.len() > 0 {
        let (next, fired) = key_step(buffer, trigger, keys[0], gaps[0]);
        law_buffer_stays_bounded(next, trigger, keys.drop_first(), gaps.drop_first());
    }
}

/// After a pause longer than the timeout, what was typed before no longer matters: feeding keys
/// whose first pause exceeds the timeout ends the same from any buffer as from an empty one.
/// So two key events further apart than the timeout never complete a trigger across the pause.
pub proof fn law_long_pause_forgets_earlier_keys(buffer: Seq<char>, trigger: Seq<char>, keys: Seq<char>, gaps: Seq<u128>)
    requires
        keys.len() > 0,
        gaps.len() > 0,
        gaps[0] > SEQUENCE_TIMEOUT_MS,
    ensures
        feed_keys(buffer, trigger, keys, gaps) == feed_keys(Seq::<char>::empty(), trigger, keys, gaps),
        key_step(buffer, trigger, keys[0], gaps[0]) == key_step(Seq::<char>::empty(), trigger, keys[0], gaps[0]),
{
}

/// The buffer after the first `p` keys.
pub open spec fn state_after(buffer: Seq<char>, trigger: Seq<char>, keys: Seq<char>, gaps: Seq<u128>, p: int) -> Seq<char> {
    feed_keys(buffer, trigger, keys.take(p), gaps.take(p)).0
}

/// Key `i` completes the trigger, after the keys before it were fed.
pub open spec fn fires_at(buffer: Seq<char>, trigger: Seq<char>, keys: Seq<char>, gaps: Seq<u128>, i: int) -> bool {
    key_step(state_after(buffer, trigger, keys, gaps, i), trigger, keys[i], gaps[i]).1
}

/// The buffer after one more key.
proof fn lemma_state_after_next(buffer: Seq<char>, trigger: Seq<char>, keys: Seq<char>, gaps: Seq<u128>, p: int)
    requires
        gaps.len() == keys.len(),
        0 <= p < keys.len(),
    ensures
        state_after(buffer, trigger, keys, gaps, p + 1) == key_step(
            state_after(buffer, trigger, keys, gaps, p),
            trigger,
            keys[p],
            gaps[p],
        ).0,
{
    lemma_feed_keys_push(buffer, trigger, keys.take(p), gaps.take(p), keys[p], gaps[p]);
    assert(keys.take(p + 1) == keys.take(p).push(keys[p]));
    assert(gaps.take(p + 1) == gaps.take(p).push(gaps[p]));
}

/// Starting empty, the buffer after `p` keys is the last of those keys, typed with no long
/// pause between them and with no trigger completed among them.
proof fn lemma_buffer_is_recent_keys(trigger: Seq<char>, keys: Seq<char>, gaps: Seq<u128>, p: int)
    requires
        gaps.len() == keys.len(),
        0 <= p <= keys.len(),
    ensures
        ({
            let b = state_after(Seq::<char>::empty(), trigger, keys, gaps, p);
            let s = p - b.len();
            &&& 0 <= s
            &&& b == keys.subrange(s, p)
            &&& forall|i: int| s <= i < p ==> !#[trigger] fires_at(Seq::<char>::empty(), trigger, keys, gaps, i)
            &&& forall|i: int| s < i < p ==> #[trigger] gaps[i] <= SEQUENCE_TIMEOUT_MS
        }),
    decreases p,
{
    let e = Seq::<char>::empty();
    if p == 0 {
        assert(keys.take(0) == Seq::<char>::empty());
        assert(state_after(e, trigger, keys, gaps, 0) == e);
        assert(keys.subrange(0, 0) =~= e);
    } else {
        let q = p - 1;
        lemma_buffer_is_recent_keys(trigger, keys, gaps, q);
        lemma_state_after_next(e, trigger, keys, gaps, q);
        let b = state_after(e, trigger, keys, gaps, q);
        let s = q - b.len();
        let c = keys[q];
        let fresh = if gaps[q] > SEQUENCE_TIMEOUT_MS {
            e
        } else {
            b
        };
        let sp = if gaps[q] > SEQUENCE_TIMEOUT_MS {
            q
        } else {
            s
        };
        let pushed = fresh.push(c);
        assert(pushed =~= keys.subrange(sp, p));
        let nb = state_after(e, trigger, keys, gaps, p);
        if !fires_at(e, trigger, keys, gaps, q) && pushed.len() > BUFFER_LIMIT {
            assert(nb =~= keys.subrange(sp + BUFFER_DROP, p));
        }
        if fires_at(e, trigger, keys, gaps, q) {
            assert(nb.len() == 0);
            assert(nb =~= keys.subrange(p, p));
        }
    }
}

/// Starting empty, when key `k` completes a trigger of `n` characters, the last `n` keys
/// (this one included) were exactly the trigger, each of the last `n - 1` came within the
/// timeout of the key before it, and none of the first `n - 1` of them completed it.
pub proof fn law_firing_means_trigger_just_typed(trigger: Seq<char>, keys: Seq<char>, gaps: Seq<u128>, k: int)
    requires
        trigger.len() >= 1,
        gaps.len() == keys.len(),
        0 <= k < keys.len(),
        fires_at(Seq::<char>::empty(), trigger, keys, gaps, k),
    ensures
        k + 1 >= trigger.len(),
        keys.subrange(k + 1 - trigger.len(), k + 1) == trigger,
        forall|i: int| k + 1 - trigger.len() < i <= k ==> #[trigger] gaps[i] <= SEQUENCE_TIMEOUT_MS,
        forall|i: int|
            k + 1 - trigger.len() <= i < k ==> !#[trigger] fires_at(Seq::<char>::empty(), trigger, keys, gaps, i),
{
    let e = Seq::<char>::empty();
    lemma_buffer_is_recent_keys(trigger, keys, gaps, k);
    let b = state_after(e, trigger, keys, gaps, k);
    let s = k - b.len();
    let n = trigger.len();
    let sp = if gaps[k] > SEQUENCE_TIMEOUT_MS {
        k
    } else {
        s
    };
    let fresh = if gaps[k] > SEQUENCE_TIMEOUT_MS {
        e
    } else {
        b
    };
    let pushed = fresh.push(keys[k]);
    assert(pushed =~= keys.subrange(sp, k + 1));
    assert(trigger.is_suffix_of(pushed));
    assert(pushed.subrange(pushed.len() - n, pushed.len() as int) =~= keys.subrange(k + 1 - n, k + 1));
}

#[verifier::external_type_specification]
#[verifier::external_body]
pub struct ExInstant(Instant);

/// `Instant::now`; nothing is claimed of the instant it returns.
#[verifier::external_body]
fn clock_now() -> Instant {
    Instant::now()
}

/// What `Instant::duration_since` gives for two instants (zero when `earlier` is the later one);
/// it depends on the two instants alone.
pub uninterp spec fn span_between(later: Instant, earlier: Instant) -> Duration;

/// What `Duration::as_millis` gives: the whole milliseconds of a duration, which depend on it alone.
pub uninterp spec fn millis_of(d: Duration) -> u128;

/// `Instant::duration_since`.
#[verifier::external_body]
fn duration_between(later: &Instant, earlier: &Instant) -> (d: Duration)
    ensures
        d == span_between(*later, *earlier),
{
    later.duration_since(*earlier)
}

/// `Duration::as_millis`.
#[verifier::external_body]
fn whole_millis(d: &Duration) -> (ms: u128)
    ensures
        ms == millis_of(*d),
{
    d.as_millis()
}

/// The pause, in whole milliseconds, from the clock reading `earlier` to the reading `later`.
pub open spec fn pause_ms(later: Instant, earlier: Instant) -> u128 {
    millis_of(span_between(later, earlier))
}

/// The pauses before each of the clock readings `stamps`, the first one measured from `start`.
pub open spec fn pauses(start: Instant, stamps: Seq<Instant>) -> Seq<u128> {
    Seq::new(
        stamps.len(),
        |i: int|
            pause_ms(
                stamps[i],
                if i == 0 {
                    start
                } else {
                    stamps[i - 1]
                },
            ),
    )
}

/// The last of the clock readings `stamps`, or `start` when there are none.
pub open spec fn last_stamp(start: Instant, stamps: Seq<Instant>) -> Instant {
    if stamps.len() == 0 {
        start
    } else {
        stamps.last()
    }
}

/// `String::from_utf16`, with its error dropped: the claim is that it decodes exactly as
/// `utf16_decode` states (surrogate pairs combined, an unpaired surrogate refused).
#[verifier::external_body]
fn decode_utf16(units: &[u16]) -> (r: Option<String>)
    ensures
        match r {
            Some(text) => utf16_decode(units@) == Some(text@),
            None => utf16_decode(units@) is None,
        },
{
    String::from_utf16(units).ok()
}

/// Watches typed characters for the trigger sequence.
pub struct HotkeyState {
    trigger_chars: Vec<char>,
    buffer: Vec<char>,
    last_keystroke: Instant,
}

impl HotkeyState {
    /// The sequence that fires.
    pub closed spec fn trigger(&self) -> Seq<char> {
        self.trigger_chars@
    }

    /// The recent characters not yet consumed by a trigger.
    pub closed spec fn buffer(&self) -> Seq<char> {
        self.buffer@
    }

    /// The clock reading of the latest keystroke (of the creation, before any).
    pub closed spec fn last_keystroke(&self) -> Instant {
        self.last_keystroke
    }

    /// A watcher for `trigger`, with nothing typed yet.
    pub fn new(trigger: &str) -> (s: Self)
        ensures
            s.trigger() == trigger@,
            s.buffer() == Seq::<char>::empty(),
    {
        let mut trigger_chars: Vec<char> = Vec::new();
        for c in it: trigger.chars()
            invariant
                trigger_chars@ == it.seq().take(it.index() as int),
        {
            trigger_chars.push(c);
        }
        HotkeyState { trigger_chars, buffer: Vec::new(), last_keystroke: clock_now() }
    }

    /// Takes one typed character, `elapsed_ms` milliseconds after the previous one;
    /// true when it completes the trigger sequence.
    pub fn step(&mut self, c: char, elapsed_ms: u128) -> (fired: bool)
        ensures
            (final(self).buffer(), fired) == key_step(old(self).buffer(), old(self).trigger(), c, elapsed_ms),
            final(self).trigger() == old(self).trigger(),
            final(self).last_keystroke() == old(self).last_keystroke(),
            old(self).buffer().len() <= BUFFER_LIMIT ==> final(self).buffer().len() <= BUFFER_LIMIT,
    {
        if elapsed_ms > SEQUENCE_TIMEOUT_MS {
            self.buffer.clear();
        }
        self.buffer.push(c);
        let ghost pushed = self.buffer@;
        let blen = self.buffer.len();
        let tlen = self.trigger_chars.len();
        if blen >= tlen {
            let start = blen - tlen;
            let mut k: usize = 0;
            let mut same = true;
            while k < tlen
                invariant
                    blen == self.buffer@.len(),
                    tlen == self.trigger_chars@.len(),
                    start == blen - tlen,
                    k <= tlen,
                    same == forall|m: int| 0 <= m < k ==> self.buffer@[start + m] == self.trigger_chars@[m],
                decreases tlen - k,
            {
                if self.buffer[start + k] != self.trigger_chars[k] {
                    same = false;
                }
                k = k + 1;
            }
            if same {
                assert(self.trigger_chars@ == pushed.subrange(start as int, blen as int));
                self.buffer.clear();
                return true;
            } else {
                assert(!self.trigger_chars@.is_suffix_of(pushed)) by {
                    if self.trigger_chars@.is_suffix_of(pushed) {
                        let m = choose|m: int| 0 <= m < tlen && self.buffer@[start + m] != self.trigger_chars@[m];
                        assert(pushed.subrange(start as int, blen as int)[m] == pushed[start + m]);
                    }
                }
            }
        }
        if blen > BUFFER_LIMIT {
            let mut kept: Vec<char> = Vec::new();
            let mut i: usize = BUFFER_DROP;
            while i < blen
                invariant
                    blen == self.buffer@.len(),
                    BUFFER_DROP <= i <= blen,
                    kept@ == self.buffer@.subrange(BUFFER_DROP as int, i as int),
                decreases blen - i,
            {
                kept.push(self.buffer[i]);
                i = i + 1;
            }
            self.buffer = kept;
        }
        false
    }

    /// Takes one typed character, timed by the clock; true when it completes the trigger sequence.
    /// The clock reading becomes the latest keystroke, and the pause is measured from the one before.
    pub fn push_char(&mut self, c: char) -> (fired: bool)
        ensures
            (final(self).buffer(), fired) == key_step(
                old(self).buffer(),
                old(self).trigger(),
                c,
                pause_ms(final(self).last_keystroke(), old(self).last_keystroke()),
            ),
            final(self).trigger() == old(self).trigger(),
            old(self).buffer().len() <= BUFFER_LIMIT ==> final(self).buffer().len() <= BUFFER_LIMIT,
    {
        let now = clock_now();
        let elapsed_ms = whole_millis(&duration_between(&now, &self.last_keystroke));
        self.last_keystroke = now;
        self.step(c, elapsed_ms)
    }
    /// Takes the UTF-16 text of one key event, character by character, each timed by the clock
    /// as `push_char` times it; returns how many of them completed the trigger.
    /// Units that do not decode are ignored.
    pub fn push_utf16(&mut self, units: &[u16]) -> (fired: usize)
        ensures
            final(self).trigger() == old(self).trigger(),
            match utf16_decode(units@) {
                None => fired == 0 && final(self).buffer() == old(self).buffer()
                    && final(self).last_keystroke() == old(self).last_keystroke(),
                Some(keys) => exists|stamps: Seq<Instant>|
                    {
                        &&& stamps.len() == keys.len()
                        &&& final(self).last_keystroke() == last_stamp(old(self).last_keystroke(), stamps)
                        &&& feed_keys(
                            old(self).buffer(),
                            old(self).trigger(),
                            keys,
                            pauses(old(self).last_keystroke(), stamps),
                        ) == (final(self).buffer(), fired as nat)
                    },
            },
    {
        let text = match decode_utf16(units) {
            Some(t) => t,
            None => return 0,
        };
        proof {
            lemma_utf16_decode_len(units@);
        }
        let keys = chars_of(text.as_str());
        let ghost start = self.buffer();
        let ghost trigger = self.trigger();
        let ghost first = self.last_keystroke();
        let ghost mut stamps: Seq<Instant> = Seq::empty();
        let mut fired: usize = 0;
        let n = keys.len();
        let mut i: usize = 0;
        assert(pauses(first, stamps) =~= Seq::<u128>::empty());
        while i < n
            invariant
                n == keys@.len(),
                n <= units@.len(),
                i <= n,
                self.trigger() == trigger,
                stamps.len() == i,
                self.last_keystroke() == last_stamp(first, stamps),
                feed_keys(start, trigger, keys@.take(i as int), pauses(first, stamps)) == (
                    self.buffer(),
                    fired as nat,
                ),
                fired <= i,
            decreases n - i,
        {
            let ghost before = self.buffer();
            let ghost prev = self.last_keystroke();
            let c = keys[i];
            let hit = self.push_char(c);
            proof {
                let now = self.last_keystroke();
                let e = pause_ms(now, prev);
                lemma_feed_keys_push(start, trigger, keys@.take(i as int), pauses(first, stamps), c, e);
                assert(keys@.take(i + 1) == keys@.take(i as int).push(c));
                assert(pauses(first, stamps.push(now)) =~= pauses(first, stamps).push(e));
                stamps = stamps.push(now);
            }
            if hit {
                fired = fired + 1;
            }
            i = i + 1;
        }
        assert(keys@.take(n as int) == keys@);
        fired
    }
}

} // verus!
