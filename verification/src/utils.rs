use std::time::{Duration, SystemTime};
use vstd::prelude::*;

verus! {

/// `std::time::SystemTime`, a point in time that is handed through as it comes.
#[verifier::external_type_specification]
#[verifier::external_body]
pub struct ExSystemTime(SystemTime);

/// What `SystemTime::duration_since` gives for `t` and the Unix epoch: the
/// time from the epoch to `t`, nothing where `t` lies before the epoch.
pub uninterp spec fn time_since_epoch(t: SystemTime) -> Option<Duration>;

/// What `Duration::as_secs` gives for `d`: the whole seconds of `d`.
pub uninterp spec fn whole_seconds(d: Duration) -> u64;

/// The time from the Unix epoch to `t`. Wraps `SystemTime::duration_since`,
/// which fails where `t` lies before the time it is asked about.
#[verifier::external_body]
fn since_epoch(t: &SystemTime) -> (elapsed: Option<Duration>)
    ensures
        elapsed == time_since_epoch(*t),
{
    t.duration_since(SystemTime::UNIX_EPOCH).ok()
}

/// The whole seconds of `d`. Wraps `Duration::as_secs`.
#[verifier::external_body]
fn seconds_of(d: &Duration) -> (secs: u64)
    ensures
        secs == whole_seconds(*d),
{
    d.as_secs()
}

/// Whole hours since the Unix epoch.
pub type HourTimestamp = u32;

/// Whole minutes since the Unix epoch.
pub type MinuteTimestamp = u64;

/// The label of a named subgroup of the population.
pub type Category = String;

/// The hour that second `secs` after the epoch falls in, as far as an hour
/// timestamp can count: the hours wrap around after 2^32 of them.
pub open spec fn hour_of_second(secs: u64) -> HourTimestamp {
    ((secs / 3600) % 0x1_0000_0000) as u32
}

/// The hour that second `secs` after the epoch falls in.
pub fn hour_of_seconds(secs: u64) -> (hour: HourTimestamp)
    ensures
        hour == hour_of_second(secs),
{
    let hours = secs / 60 / 60;
    assert(hours == secs / 3600);
    assert(hours as u32 == hours % 0x1_0000_0000) by (bit_vector);
    hours as u32
}

/// Whether `t` is a time that has an hour timestamp: one at or after the epoch.
pub open spec fn has_hour(t: SystemTime) -> bool {
    time_since_epoch(t) is Some
}

/// The hour timestamp of a time that has one.
pub open spec fn hour_at(t: SystemTime) -> HourTimestamp {
    hour_of_second(whole_seconds(time_since_epoch(t)->0))
}

/// The hour that `t` falls in, counted from the epoch.
pub fn get_hour_timestamp(t: SystemTime) -> (hour: HourTimestamp)
    requires
        has_hour(t),
    ensures
        hour == hour_at(t),
{
    match since_epoch(&t) {
        Some(elapsed) => hour_of_seconds(seconds_of(&elapsed)),
        None => 0,
    }
}

/// The hour that `t` falls in, counted from the epoch; nothing for a time before the epoch.
pub fn checked_hour_timestamp(t: SystemTime) -> (hour: Option<HourTimestamp>)
    ensures
        hour == if has_hour(t) {
            Some(hour_at(t))
        } else {
            None
        },
{
    match since_epoch(&t) {
        Some(_) => Some(get_hour_timestamp(t)),
        None => None,
    }
}

/// Sixty flags, one per minute of an hour, kept in two 30-bit halves.
#[derive(Clone, Copy, Debug, PartialEq, Eq)]
pub struct BitField64(pub i32, pub i32);

impl Default for BitField64 {
    /// The field with every flag down.
    fn default() -> (field: Self)
        ensures
            field == BitField64(0, 0),
            field.minutes() == Set::<int>::empty(),
            field.in_range(),
    {
        let field = BitField64(0, 0);
        proof {
            field.lemma_none_up();
        }
        field
    }
}

impl BitField64 {
    /// Whether flag `i` is up: flags 0..30 are the low bits of the first half,
    /// flags 30..60 those of the second.
    pub open spec fn bit(self, i: int) -> bool {
        if i < 30 {
            self.0 & (1i32 << (i as u32)) != 0
        } else {
            self.1 & (1i32 << ((i - 30) as u32)) != 0
        }
    }

    /// The minutes whose flag is up.
    pub open spec fn minutes(self) -> Set<int> {
        Set::new(|m: int| 0 <= m < 60 && self.bit(m))
    }

    /// Only the thirty low bits of each half are in use.
    pub open spec fn in_range(self) -> bool {
        0 <= self.0 < 0x4000_0000 && 0 <= self.1 < 0x4000_0000
    }

    /// With no bit set, no flag is up.
    pub proof fn lemma_none_up(self)
        requires
            self.0 == 0,
            self.1 == 0,
        ensures
            self.minutes() == Set::<int>::empty(),
            self.in_range(),
    {
        assert forall|m: int| 0 <= m < 60 implies !self.bit(m) by {
            let j: u32 = if m < 30 {
                m as u32
            } else {
                (m - 30) as u32
            };
            assert(0i32 & (1i32 << j) == 0) by (bit_vector);
        }
        assert(self.minutes() =~= Set::<int>::empty());
    }

    /// Raising one of the thirty flags of a half keeps the half within its thirty bits.
    proof fn lemma_raise_in_range(x: i32, i: u32)
        requires
            0 <= x < 0x4000_0000,
            0 <= i < 30,
        ensures
            0 <= (x | (1i32 << i)) < 0x4000_0000,
    {
        assert(0 <= (x | (1i32 << i)) < 0x4000_0000) by (bit_vector)
            requires
                0 <= x < 0x4000_0000,
                0 <= i < 30,
        ;
    }

    /// Raising flag `i` of a half raises that flag and leaves the others of the half alone.
    proof fn lemma_raise(x: i32, i: u32, j: u32)
        requires
            0 <= i < 30,
            0 <= j < 30,
        ensures
            ((x | (1i32 << i)) & (1i32 << j) != 0) == ((x & (1i32 << j) != 0) || i == j),
    {
        assert(((x | (1i32 << i)) & (1i32 << j) != 0) == ((x & (1i32 << j) != 0) || i == j))
            by (bit_vector)
            requires
                0 <= i < 30,
                0 <= j < 30,
        ;
    }

    /// Raises flag `i` and leaves the others as they are.
    pub fn turn_on(&mut self, i: i32)
        requires
            0 <= i < 60,
        ensures
            i < 30 ==> final(self).0 == old(self).0 | (1i32 << (i as u32)) && final(self).1 == old(
                self,
            ).1,
            i >= 30 ==> final(self).1 == old(self).1 | (1i32 << ((i - 30) as u32)) && final(self).0
                == old(self).0,
            forall|j: int| 0 <= j < 60 ==> final(self).bit(j) == (old(self).bit(j) || j == i),
            final(self).minutes() == old(self).minutes().insert(i as int),
            old(self).in_range() ==> final(self).in_range(),
    {
        if i < 30 {
            self.0 |= 1 << i
        } else {
            self.1 |= 1 << (i - 30)
        }
        proof {
            assert forall|j: int| 0 <= j < 60 implies self.bit(j) == (old(self).bit(j) || j
                == i) by {
                if i < 30 && j < 30 {
                    Self::lemma_raise(old(self).0, i as u32, j as u32);
                } else if i >= 30 && j >= 30 {
                    Self::lemma_raise(old(self).1, (i - 30) as u32, (j - 30) as u32);
                }
            }
            assert(self.minutes() =~= old(self).minutes().insert(i as int));
            if old(self).in_range() {
                if i < 30 {
                    Self::lemma_raise_in_range(old(self).0, i as u32);
                } else {
                    Self::lemma_raise_in_range(old(self).1, (i - 30) as u32);
                }
            }
        }
    }

    /// Whether flag `i` is up.
    pub fn is_on(self, i: i32) -> (on: bool)
        requires
            0 <= i < 60,
        ensures
            on == self.bit(i as int),
            on == self.minutes().contains(i as int),
    {
        if i < 30 {
            self.0 & (1 << i) != 0
        } else {
            self.1 & (1 << (i - 30)) != 0
        }
    }
}

} // verus!
