//! The vocabulary shared by every steward implementation: extended times,
//! query offsets, fiat-event errors, and the `ValidSince` lower bound on
//! permitted times.

use vstd::prelude::*;
use crate::ids::DeterministicRandomId;
use crate::ids::id_lt;

verus! {

/// Counter distinguishing events that share a base time.
pub type IterationType = u32;

/// The ceiling on `iteration`: a chain of predictions that stays at one base
/// time is cut off here, as a guard against client physics that would
/// otherwise schedule events at the same base time forever.
pub const MAX_ITERATION: IterationType = 65535;

/// The total order the kernel uses internally for events: the client-chosen
/// base time, disambiguated by an iteration counter and a 128-bit identifier.
#[derive(Copy, Clone, PartialEq, Eq, Structural, Hash, Debug)]
pub struct ExtendedTime {
    pub base: i64,
    pub iteration: IterationType,
    pub id: DeterministicRandomId,
}

/// Lexicographic order on `(base, iteration, id)`.
pub open spec fn et_lt(a: ExtendedTime, b: ExtendedTime) -> bool {
    a.base < b.base
    || (a.base == b.base && a.iteration < b.iteration)
    || (a.base == b.base && a.iteration == b.iteration && id_lt(a.id, b.id))
}

/// Equality of the three ordering components.
pub open spec fn et_eq(a: ExtendedTime, b: ExtendedTime) -> bool {
    a.base == b.base && a.iteration == b.iteration && a.id.data0 == b.id.data0
        && a.id.data1 == b.id.data1
}

impl ExtendedTime {
    /// The extended time that precedes everything at base time `time`.
    pub fn beginning_of(time: i64) -> (r: ExtendedTime)
        ensures
            r.base == time,
            r.iteration == 0,
            r.id.data0 == 0 && r.id.data1 == 0,
    {
        ExtendedTime { base: time, iteration: 0, id: DeterministicRandomId { data0: 0, data1: 0 } }
    }

    /// The extended time that follows everything at base time `time`.
    pub fn end_of(time: i64) -> (r: ExtendedTime)
        ensures
            r.base == time,
            r.iteration == u32::MAX,
            r.id.data0 == u64::MAX && r.id.data1 == u64::MAX,
    {
        ExtendedTime {
            base: time,
            iteration: u32::MAX,
            id: DeterministicRandomId { data0: u64::MAX, data1: u64::MAX },
        }
    }

    /// Strictly-less comparison in the extended-time order.
    pub fn lt(&self, other: &ExtendedTime) -> (r: bool)
        ensures
            r == et_lt(*self, *other),
    {
        self.base < other.base
        || (self.base == other.base && self.iteration < other.iteration)
        || (self.base == other.base && self.iteration == other.iteration
            && self.id.lt(&other.id))
    }

    /// Equality of the three ordering components.
    pub fn eq_time(&self, other: &ExtendedTime) -> (r: bool)
        ensures
            r == et_eq(*self, *other),
    {
        self.base == other.base && self.iteration == other.iteration
            && self.id.data0 == other.id.data0 && self.id.data1 == other.id.data1
    }
}

/// The order `et_lt` is a strict total order with `et_eq` as its equality.
pub proof fn lemma_et_order(a: ExtendedTime, b: ExtendedTime, c: ExtendedTime)
    ensures
        !(et_lt(a, b) && et_lt(b, a)),
        et_lt(a, b) || et_lt(b, a) || et_eq(a, b),
        !(et_lt(a, b) && et_eq(a, b)),
        et_lt(a, b) && et_lt(b, c) ==> et_lt(a, c),
        et_eq(a, b) ==> (et_lt(a, c) == et_lt(b, c) && et_lt(c, a) == et_lt(c, b)),
{
}

/// An extended time flattened onto the number line, in order: base time
/// first, then iteration, then the identifier words.
pub open spec fn et_rank(t: ExtendedTime) -> int {
    ((t.base + 0x8000_0000_0000_0000) * 0x1_0000_0000 + t.iteration)
        * 0x1_0000_0000_0000_0000_0000_0000_0000_0000 + t.id.data0 * 0x1_0000_0000_0000_0000
        + t.id.data1
}

/// The flattening respects the extended-time order.
pub proof fn lemma_et_rank(a: ExtendedTime, b: ExtendedTime)
    ensures
        et_lt(a, b) ==> et_rank(a) < et_rank(b),
{
    if et_lt(a, b) {
        let ha = (a.base + 0x8000_0000_0000_0000) * 0x1_0000_0000 + a.iteration;
        let hb = (b.base + 0x8000_0000_0000_0000) * 0x1_0000_0000 + b.iteration;
        let ta = a.id.data0 * 0x1_0000_0000_0000_0000 + a.id.data1;
        let tb = b.id.data0 * 0x1_0000_0000_0000_0000 + b.id.data1;
        assert(0 <= ta < 0x1_0000_0000_0000_0000_0000_0000_0000_0000) by (nonlinear_arith)
            requires
                0 <= a.id.data0 < 0x1_0000_0000_0000_0000,
                0 <= a.id.data1 < 0x1_0000_0000_0000_0000,
                ta == a.id.data0 * 0x1_0000_0000_0000_0000 + a.id.data1,
        ;
        assert(0 <= tb < 0x1_0000_0000_0000_0000_0000_0000_0000_0000) by (nonlinear_arith)
            requires
                0 <= b.id.data0 < 0x1_0000_0000_0000_0000,
                0 <= b.id.data1 < 0x1_0000_0000_0000_0000,
                tb == b.id.data0 * 0x1_0000_0000_0000_0000 + b.id.data1,
        ;
        if a.base < b.base || (a.base == b.base && a.iteration < b.iteration) {
            assert(ha < hb) by (nonlinear_arith)
                requires
                    ha == (a.base + 0x8000_0000_0000_0000) * 0x1_0000_0000 + a.iteration,
                    hb == (b.base + 0x8000_0000_0000_0000) * 0x1_0000_0000 + b.iteration,
                    a.base < b.base || (a.base == b.base && a.iteration < b.iteration),
                    a.iteration < 0x1_0000_0000,
                    b.iteration < 0x1_0000_0000,
            ;
            assert(ha * 0x1_0000_0000_0000_0000_0000_0000_0000_0000 + ta < hb
                * 0x1_0000_0000_0000_0000_0000_0000_0000_0000 + tb) by (nonlinear_arith)
                requires
                    ha < hb,
                    0 <= ta < 0x1_0000_0000_0000_0000_0000_0000_0000_0000,
                    0 <= tb < 0x1_0000_0000_0000_0000_0000_0000_0000_0000,
            ;
        } else {
            assert(ta < tb) by (nonlinear_arith)
                requires
                    ta == a.id.data0 * 0x1_0000_0000_0000_0000 + a.id.data1,
                    tb == b.id.data0 * 0x1_0000_0000_0000_0000 + b.id.data1,
                    a.id.data0 < b.id.data0 || (a.id.data0 == b.id.data0 && a.id.data1
                        < b.id.data1),
                    a.id.data1 < 0x1_0000_0000_0000_0000,
                    b.id.data1 < 0x1_0000_0000_0000_0000,
            ;
        }
    }
}

/// Data a simulation may store and pass around: cheap to copy and compared
/// by value. The kernel's own value types implement it.
pub trait StewardData: Sized + Copy {

}

/// Whether a query observes the state immediately before or immediately after
/// the chosen moment.
#[derive(Copy, Clone, PartialEq, Eq, Structural, Debug)]
pub enum QueryOffset {
    Before,
    After,
}

/// Why an operation on the fiat-event set was refused.
#[derive(Copy, Clone, PartialEq, Eq, Structural, Debug)]
pub enum FiatEventOperationError {
    InvalidInput,
    InvalidTime,
}

/// The lower bound on the times at which a steward still accepts operations.
///
/// `Before(t)` permits operations at `t` itself; `After(t)` does not. Note the
/// acceptable peculiarity that, even for integer times, `After(2) < Before(3)`.
#[derive(Copy, Clone, PartialEq, Eq, Structural, Debug)]
pub enum ValidSince {
    TheBeginning,
    Before(i64),
    After(i64),
}

impl ValidSince {
    /// Whether an operation at base time `time` is still permitted under this
    /// bound: every time is permitted from the beginning, `Before(s)` permits
    /// times at or after `s`, and `After(s)` permits only times after `s`.
    pub open spec fn permits(self, time: i64) -> bool {
        match self {
            ValidSince::TheBeginning => true,
            ValidSince::Before(s) => time >= s,
            ValidSince::After(s) => time > s,
        }
    }

    /// Total-order comparison of two bounds. `TheBeginning` comes first, then
    /// the bounds in time order, a `Before` ahead of the `After` at the same
    /// time.
    pub fn cmp(&self, other: &ValidSince) -> (r: core::cmp::Ordering)
        ensures
            r == core::cmp::Ordering::Equal <==> *self == *other,
            r == core::cmp::Ordering::Less <==> vs_lt(*self, *other),
            r == core::cmp::Ordering::Greater <==> vs_lt(*other, *self),
    {
        match (self, other) {
            (ValidSince::TheBeginning, ValidSince::TheBeginning) => core::cmp::Ordering::Equal,
            (ValidSince::TheBeginning, _) => core::cmp::Ordering::Less,
            (_, ValidSince::TheBeginning) => core::cmp::Ordering::Greater,
            (ValidSince::Before(a), ValidSince::Before(b)) => {
                if *a < *b {
                    core::cmp::Ordering::Less
                } else if *a == *b {
                    core::cmp::Ordering::Equal
                } else {
                    core::cmp::Ordering::Greater
                }
            },
            (ValidSince::After(a), ValidSince::After(b)) => {
                if *a < *b {
                    core::cmp::Ordering::Less
                } else if *a == *b {
                    core::cmp::Ordering::Equal
                } else {
                    core::cmp::Ordering::Greater
                }
            },
            (ValidSince::Before(a), ValidSince::After(b)) => {
                if *a <= *b {
                    core::cmp::Ordering::Less
                } else {
                    core::cmp::Ordering::Greater
                }
            },
            (ValidSince::After(a), ValidSince::Before(b)) => {
                if *a < *b {
                    core::cmp::Ordering::Less
                } else {
                    core::cmp::Ordering::Greater
                }
            },
        }
    }

    /// Whether `time` is permitted under this bound; the executable face of
    /// [`ValidSince::permits`].
    pub fn permits_time(&self, time: i64) -> (r: bool)
        ensures
            r == self.permits(time),
    {
        match self {
            ValidSince::TheBeginning => true,
            ValidSince::Before(s) => time >= *s,
            ValidSince::After(s) => time > *s,
        }
    }

    /// The later (more restrictive) of two bounds, as a specification.
    pub open spec fn spec_max(self, other: ValidSince) -> ValidSince {
        if vs_lt(self, other) {
            other
        } else {
            self
        }
    }

    /// The later (more restrictive) of two bounds.
    pub fn max(self, other: ValidSince) -> (r: ValidSince)
        ensures
            r == self.spec_max(other),
            !vs_lt(r, self),
            !vs_lt(r, other),
    {
        let o = self.cmp(&other);
        match o {
            core::cmp::Ordering::Less => other,
            _ => self,
        }
    }
}

/// Order on two bounds: `TheBeginning` first, then time order, a `Before`
/// ahead of the `After` at the same time.
pub open spec fn vs_lt(a: ValidSince, b: ValidSince) -> bool {
    match (a, b) {
        (ValidSince::TheBeginning, ValidSince::TheBeginning) => false,
        (ValidSince::TheBeginning, _) => true,
        (_, ValidSince::TheBeginning) => false,
        (ValidSince::Before(x), ValidSince::Before(y)) => x < y,
        (ValidSince::After(x), ValidSince::After(y)) => x < y,
        (ValidSince::Before(x), ValidSince::After(y)) => x <= y,
        (ValidSince::After(x), ValidSince::Before(y)) => x < y,
    }
}

/// The order `vs_lt` is a strict total order.
pub proof fn lemma_vs_order(a: ValidSince, b: ValidSince, c: ValidSince)
    ensures
        !(vs_lt(a, b) && vs_lt(b, a)),
        vs_lt(a, b) || vs_lt(b, a) || a == b,
        vs_lt(a, b) && vs_lt(b, c) ==> vs_lt(a, c),
{
}

/// A later bound permits fewer times: whatever a bound permits, every earlier
/// bound permits as well.
pub proof fn lemma_vs_monotone(a: ValidSince, b: ValidSince, t: i64)
    ensures
        !vs_lt(b, a) && b.permits(t) ==> a.permits(t),
{
}

} // verus!
