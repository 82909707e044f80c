//! The outbound throughput limiter.
//!
//! Every rate-limited call is decided against one global policy and one
//! record per caller, keyed by the caller address and clocked by block
//! height. An accepted call updates the caller's record; a rejected call
//! leaves every record exactly as it was.

use vstd::prelude::*;

use crate::order::str_eq;

verus! {

/// The throughput policy: at most `n` accepted calls per caller within one
/// block, or at least `n` blocks between two accepted calls of one caller.
#[derive(Debug, Clone, Copy, PartialEq, Eq, Structural)]
pub enum Rate {
    PerBlock(u32),
    Blocks(u64),
}

/// Why the limiter refused an operation.
#[derive(Debug, Clone, Copy, PartialEq, Eq, Structural)]
pub enum RateLimitError {
    /// The caller has exhausted its allowance for the current window.
    Exceeded,
    /// A rate of zero would block every call: invalid configuration.
    ZeroRate,
    /// The limiter already holds a policy.
    AlreadyInitialized,
    /// The limiter holds no policy yet.
    Uninitialized,
}

/// Per-caller record: the block height of the last accepted call, and how
/// many calls were accepted at that height.
#[derive(Debug, Clone, Copy, PartialEq, Eq, Structural)]
pub struct CallerRateState {
    pub last_height: u64,
    pub count_at_last_height: u32,
}

/// One caller's entry in the limiter's store.
#[derive(Debug, Clone)]
pub struct CallerEntry {
    pub caller: String,
    pub state: CallerRateState,
}

/// A positive rate; zero is invalid configuration.
pub open spec fn rate_positive(r: Rate) -> bool {
    match r {
        Rate::PerBlock(n) => n > 0,
        Rate::Blocks(n) => n > 0,
    }
}

/// The record stored for caller `c`, or `None` before its first accepted
/// call.
pub open spec fn lookup(s: Seq<CallerEntry>, c: Seq<char>) -> Option<CallerRateState>
    decreases s.len(),
{
    if s.len() == 0 {
        Option::None
    } else if s[0].caller@ == c {
        Option::Some(s[0].state)
    } else {
        lookup(s.drop_first(), c)
    }
}

/// The decision for one call: `Some(new_record)` to accept and store, or
/// `None` to reject and leave the store alone.
///
/// `PerBlock(n)`: a fresh block resets the working count to zero; the call
/// is accepted while the count stays below `n`. `Blocks(n)`: a first call is
/// always accepted; later ones only once `n` blocks have elapsed.
pub open spec fn limit_decision(rate: Rate, st: Option<CallerRateState>, h: u64) -> Option<
    CallerRateState,
> {
    match rate {
        Rate::PerBlock(n) => {
            let count = match st {
                Option::Some(s) => if s.last_height == h {
                    s.count_at_last_height
                } else {
                    0u32
                },
                Option::None => 0u32,
            };
            if count < n {
                Option::Some(
                    CallerRateState { last_height: h, count_at_last_height: (count + 1) as u32 },
                )
            } else {
                Option::None
            }
        },
        Rate::Blocks(n) => match st {
            Option::None => Option::Some(
                CallerRateState { last_height: h, count_at_last_height: 1u32 },
            ),
            Option::Some(s) => if h >= s.last_height && h - s.last_height >= n {
                Option::Some(CallerRateState { last_height: h, count_at_last_height: 1u32 })
            } else {
                Option::None
            },
        },
    }
}

/// Decide one call from explicit inputs: the new record to store on
/// acceptance, or `Exceeded`. The stores' `limit` is this decision plus the
/// record update; environments with their own persistence can call this
/// directly and store the returned record themselves.
pub fn limit_check(rate: Rate, st: Option<CallerRateState>, current_height: u64) -> (r: Result<
    CallerRateState,
    RateLimitError,
>)
    ensures
        match limit_decision(rate, st, current_height) {
            Option::Some(ns) => r == Result::<CallerRateState, RateLimitError>::Ok(ns),
            Option::None => r == Result::<CallerRateState, RateLimitError>::Err(
                RateLimitError::Exceeded,
            ),
        },
{
    match rate {
        Rate::PerBlock(n) => {
            let count: u32 = match st {
                Option::Some(s) => if s.last_height == current_height {
                    s.count_at_last_height
                } else {
                    0
                },
                Option::None => 0,
            };
            if count < n {
                Result::Ok(
                    CallerRateState {
                        last_height: current_height,
                        count_at_last_height: count + 1,
                    },
                )
            } else {
                Result::Err(RateLimitError::Exceeded)
            }
        },
        Rate::Blocks(n) => match st {
            Option::None => Result::Ok(
                CallerRateState { last_height: current_height, count_at_last_height: 1 },
            ),
            Option::Some(s) => {
                if current_height >= s.last_height && current_height - s.last_height >= n {
                    Result::Ok(
                        CallerRateState { last_height: current_height, count_at_last_height: 1 },
                    )
                } else {
                    Result::Err(RateLimitError::Exceeded)
                }
            },
        },
    }
}

proof fn lemma_lookup_first(s: Seq<CallerEntry>, c: Seq<char>, j: int)
    requires
        0 <= j < s.len(),
        s[j].caller@ == c,
        forall|k: int| 0 <= k < j ==> s[k].caller@ != c,
    ensures
        lookup(s, c) == Option::Some(s[j].state),
    decreases j,
{
    if j > 0 {
        assert forall|k: int| 0 <= k < j - 1 implies s.drop_first()[k].caller@ != c by {
            assert(s.drop_first()[k] == s[k + 1]);
        }
        assert(s.drop_first()[j - 1] == s[j]);
        lemma_lookup_first(s.drop_first(), c, j - 1);
    }
}

proof fn lemma_lookup_none(s: Seq<CallerEntry>, c: Seq<char>)
    requires
        forall|k: int| 0 <= k < s.len() ==> s[k].caller@ != c,
    ensures
        lookup(s, c) is None,
    decreases s.len(),
{
    if s.len() > 0 {
        assert forall|k: int| 0 <= k < s.drop_first().len() implies s.drop_first()[k].caller@
            != c by {
            assert(s.drop_first()[k] == s[k + 1]);
        }
        lemma_lookup_none(s.drop_first(), c);
    }
}

/// Replacing the record at `i` leaves every other caller's lookup alone.
proof fn lemma_lookup_update(s: Seq<CallerEntry>, i: int, e: CallerEntry, c: Seq<char>)
    requires
        0 <= i < s.len(),
        e.caller@ == s[i].caller@,
        c != e.caller@,
    ensures
        lookup(s.update(i, e), c) == lookup(s, c),
    decreases s.len(),
{
    if i == 0 {
        assert(s.update(i, e).drop_first() =~= s.drop_first());
    } else {
        assert(s.update(i, e)[0] == s[0]);
        assert(s.update(i, e).drop_first() =~= s.drop_first().update(i - 1, e));
        if s[0].caller@ != c {
            assert(s.drop_first()[i - 1] == s[i]);
            lemma_lookup_update(s.drop_first(), i - 1, e, c);
        }
    }
}

/// Appending a record for a new caller leaves every other lookup alone.
proof fn lemma_lookup_push(s: Seq<CallerEntry>, e: CallerEntry, c: Seq<char>)
    requires
        c != e.caller@,
    ensures
        lookup(s.push(e), c) == lookup(s, c),
    decreases s.len(),
{
    reveal_with_fuel(lookup, 3);
    if s.len() == 0 {
        assert(s.push(e)[0] == e);
        assert(s.push(e).drop_first() =~= Seq::<CallerEntry>::empty());
    } else {
        assert(s.push(e)[0] == s[0]);
        assert(s.push(e).drop_first() =~= s.drop_first().push(e));
        lemma_lookup_push(s.drop_first(), e, c);
    }
}

/// First entry of `caller`, if one is stored.
fn find_caller(v: &Vec<CallerEntry>, caller: &String) -> (r: Option<usize>)
    ensures
        match r {
            Option::Some(i) => i < v@.len() && v@[i as int].caller@ == caller@ && forall|j: int|
                0 <= j < i ==> v@[j].caller@ != caller@,
            Option::None => forall|j: int| 0 <= j < v@.len() ==> v@[j].caller@ != caller@,
        },
{
    let mut i: usize = 0;
    while i < v.len()
        invariant
            i <= v@.len(),
            forall|j: int| 0 <= j < i ==> v@[j].caller@ != caller@,
        decreases v@.len() - i,
    {
        if str_eq(v[i].caller.as_str(), caller.as_str()) {
            return Option::Some(i);
        }
        i = i + 1;
    }
    Option::None
}

/// The limiter: one global policy and one record per caller.
pub struct RateLimiter {
    pub rate: Option<Rate>,
    pub callers: Vec<CallerEntry>,
}

impl RateLimiter {
    /// A fresh limiter: no policy stored, no caller records.
    pub fn new() -> (s: Self)
        ensures
            s.rate is None,
            s.callers@.len() == 0,
    {
        RateLimiter { rate: Option::None, callers: Vec::new() }
    }

    /// Store the policy. Fails with `ZeroRate` on a zero rate and with
    /// `AlreadyInitialized` if a policy is already stored; a failed call
    /// changes nothing.
    pub fn init(&mut self, rate: Rate) -> (r: Result<(), RateLimitError>)
        ensures
            old(self).rate is Some ==> r == Result::<(), RateLimitError>::Err(
                RateLimitError::AlreadyInitialized,
            ) && *final(self) == *old(self),
            old(self).rate is None && !rate_positive(rate) ==> r == Result::<(),
                RateLimitError,
            >::Err(RateLimitError::ZeroRate) && *final(self) == *old(self),
            old(self).rate is None && rate_positive(rate) ==> r is Ok && final(self).rate
                == Option::Some(rate) && final(self).callers == old(self).callers,
    {
        if self.rate.is_some() {
            return Result::Err(RateLimitError::AlreadyInitialized);
        }
        let zero = match rate {
            Rate::PerBlock(n) => n == 0,
            Rate::Blocks(n) => n == 0,
        };
        if zero {
            return Result::Err(RateLimitError::ZeroRate);
        }
        self.rate = Option::Some(rate);
        Result::Ok(())
    }

    /// The stored policy, or `Uninitialized`.
    pub fn query_limit(&self) -> (r: Result<Rate, RateLimitError>)
        ensures
            match self.rate {
                Option::Some(rt) => r == Result::<Rate, RateLimitError>::Ok(rt),
                Option::None => r == Result::<Rate, RateLimitError>::Err(
                    RateLimitError::Uninitialized,
                ),
            },
    {
        match &self.rate {
            Option::Some(rt) => Result::Ok(*rt),
            Option::None => Result::Err(RateLimitError::Uninitialized),
        }
    }

    /// The record stored for `caller`, if any.
    pub fn caller_state(&self, caller: &String) -> (r: Option<CallerRateState>)
        ensures
            r == lookup(self.callers@, caller@),
    {
        match find_caller(&self.callers, caller) {
            Option::Some(i) => {
                proof {
                    lemma_lookup_first(self.callers@, caller@, i as int);
                }
                Option::Some(self.callers[i].state)
            },
            Option::None => {
                proof {
                    lemma_lookup_none(self.callers@, caller@);
                }
                Option::None
            },
        }
    }

    /// Decide one rate-limited call from `caller` at `current_height`.
    /// Acceptance stores the caller's new record; rejection returns
    /// `Exceeded` and leaves the whole limiter exactly as it was.
    pub fn limit(&mut self, current_height: u64, caller: &String) -> (r: Result<
        (),
        RateLimitError,
    >)
        ensures
            final(self).rate == old(self).rate,
            old(self).rate is None ==> r == Result::<(), RateLimitError>::Err(
                RateLimitError::Uninitialized,
            ) && *final(self) == *old(self),
            (match old(self).rate {
                Option::Some(rt) => match limit_decision(
                    rt,
                    lookup(old(self).callers@, caller@),
                    current_height,
                ) {
                    Option::Some(ns) => r is Ok && lookup(final(self).callers@, caller@)
                        == Option::Some(ns) && forall|c: Seq<char>|
                        c != caller@ ==> lookup(final(self).callers@, c) == lookup(
                            old(self).callers@,
                            c,
                        ),
                    Option::None => r == Result::<(), RateLimitError>::Err(
                        RateLimitError::Exceeded,
                    ) && *final(self) == *old(self),
                },
                Option::None => true,
            }),
    {
        let rt = match &self.rate {
            Option::None => {
                return Result::Err(RateLimitError::Uninitialized);
            },
            Option::Some(rt) => *rt,
        };
        let idx = find_caller(&self.callers, caller);
        let st = match idx {
            Option::Some(i) => Option::Some(self.callers[i].state),
            Option::None => Option::None,
        };
        proof {
            match idx {
                Option::Some(i) => lemma_lookup_first(self.callers@, caller@, i as int),
                Option::None => lemma_lookup_none(self.callers@, caller@),
            }
        }
        match limit_check(rt, st, current_height) {
            Result::Err(e) => Result::Err(e),
            Result::Ok(ns) => {
                let ghost pre = self.callers@;
                match idx {
                    Option::Some(i) => {
                        let entry = CallerEntry { caller: self.callers[i].caller.clone(), state: ns };
                        self.callers[i] = entry;
                        proof {
                            assert(self.callers@ == pre.update(i as int, entry));
                            assert(self.callers@[i as int].caller@ == caller@);
                            lemma_lookup_first(self.callers@, caller@, i as int);
                            assert forall|c: Seq<char>| c != caller@ implies lookup(
                                self.callers@,
                                c,
                            ) == lookup(pre, c) by {
                                lemma_lookup_update(pre, i as int, entry, c);
                            }
                        }
                    },
                    Option::None => {
                        let entry = CallerEntry { caller: caller.clone(), state: ns };
                        self.callers.push(entry);
                        proof {
                            assert(self.callers@ == pre.push(entry));
                            assert(self.callers@[pre.len() as int].caller@ == caller@);
                            lemma_lookup_first(self.callers@, caller@, pre.len() as int);
                            assert forall|c: Seq<char>| c != caller@ implies lookup(
                                self.callers@,
                                c,
                            ) == lookup(pre, c) by {
                                lemma_lookup_push(pre, entry, c);
                            }
                        }
                    },
                }
                Result::Ok(())
            },
        }
    }
}

} // verus!
