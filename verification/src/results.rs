//! Counting the outcomes of signature verification attempts.
use vstd::prelude::*;

use crate::text::{append_decimal, decimal, same_text};

verus! {

/// One of the four outcome counters of a `TestResult`.
#[derive(Debug, Clone, Copy, PartialEq, Eq, Structural)]
pub enum Counter {
    FalseAccept,
    FalseReject,
    GenuineAccept,
    GenuineReject,
}

/// Counters of the four outcomes of verification attempts.
#[derive(Clone, Copy)]
pub struct TestResult {
    pub false_accept: u32,
    pub false_reject: u32,
    pub genuine_accept: u32,
    pub genuine_reject: u32,
}

/// The counter that an attempt lands in: an attempt whose metric fell under
/// the threshold is accepted; it is genuine when the candidate user is the one
/// who wrote the tested signature.
pub open spec fn outcome(accepted: bool, genuine: bool) -> Counter {
    if accepted {
        if genuine {
            Counter::GenuineAccept
        } else {
            Counter::FalseAccept
        }
    } else {
        if genuine {
            Counter::FalseReject
        } else {
            Counter::GenuineReject
        }
    }
}

/// The counters after one attempt lands in its counter.
pub open spec fn recorded(r: TestResult, accepted: bool, genuine: bool) -> TestResult {
    match outcome(accepted, genuine) {
        Counter::FalseAccept => TestResult { false_accept: (r.false_accept + 1) as u32, ..r },
        Counter::FalseReject => TestResult { false_reject: (r.false_reject + 1) as u32, ..r },
        Counter::GenuineAccept => TestResult { genuine_accept: (r.genuine_accept + 1) as u32, ..r },
        Counter::GenuineReject => TestResult { genuine_reject: (r.genuine_reject + 1) as u32, ..r },
    }
}

/// The counters after a run of attempts, each an (accepted, genuine) pair,
/// recorded in order from `start`.
pub open spec fn tally(start: TestResult, attempts: Seq<(bool, bool)>) -> TestResult
    decreases attempts.len(),
{
    if attempts.len() == 0 {
        start
    } else {
        let last = attempts.last();
        recorded(tally(start, attempts.drop_last()), last.0, last.1)
    }
}

/// An attempt lands in an accept counter exactly when it was accepted, and in
/// a counter of the genuine user (a genuine accept or a false reject) exactly
/// when the candidate is the user who wrote the signature.
pub proof fn lemma_outcome_meaning(accepted: bool, genuine: bool)
    ensures
        (outcome(accepted, genuine) == Counter::FalseAccept || outcome(accepted, genuine)
            == Counter::GenuineAccept) <==> accepted,
        (outcome(accepted, genuine) == Counter::GenuineAccept || outcome(accepted, genuine)
            == Counter::FalseReject) <==> genuine,
{
}

impl TestResult {
    /// The value of one counter.
    pub open spec fn count(self, c: Counter) -> nat {
        match c {
            Counter::FalseAccept => self.false_accept as nat,
            Counter::FalseReject => self.false_reject as nat,
            Counter::GenuineAccept => self.genuine_accept as nat,
            Counter::GenuineReject => self.genuine_reject as nat,
        }
    }

    /// The sum of the four counters.
    pub open spec fn attempts(self) -> nat {
        (self.false_accept + self.false_reject + self.genuine_accept + self.genuine_reject) as nat
    }

    /// All counters at zero.
    pub fn new() -> (r: Self)
        ensures
            r.false_accept == 0,
            r.false_reject == 0,
            r.genuine_accept == 0,
            r.genuine_reject == 0,
    {
        TestResult { false_accept: 0, false_reject: 0, genuine_accept: 0, genuine_reject: 0 }
    }

    /// Counts one attempt of `training_user`'s references against a signature
    /// written by `testing_user`: accepted or rejected, genuine when the two
    /// names are equal.
    pub fn record_attempt(&mut self, accepted: bool, training_user: &str, testing_user: &str)
        requires
            old(self).count(outcome(accepted, training_user@ == testing_user@)) < u32::MAX,
        ensures
            forall|c: Counter|
                #[trigger] final(self).count(c) == old(self).count(c) + if c == outcome(
                    accepted,
                    training_user@ == testing_user@,
                ) {
                    1nat
                } else {
                    0nat
                },
            final(self).attempts() == old(self).attempts() + 1,
            *final(self) == recorded(*old(self), accepted, training_user@ == testing_user@),
    {
        let ghost before = *self;
        let genuine = same_text(training_user, testing_user);
        if accepted {
            if !genuine {
                self.false_accept = self.false_accept + 1;
            } else {
                self.genuine_accept = self.genuine_accept + 1;
            }
        } else {
            if !genuine {
                self.genuine_reject = self.genuine_reject + 1;
            } else {
                self.false_reject = self.false_reject + 1;
            }
        }
        proof {
            lemma_record_counts_once(before, *self, accepted, genuine);
        }
    }

    /// Counts one attempt as `record_attempt` does when its counter has room,
    /// and reports whether it did; a full counter is left as it was.
    pub fn try_record_attempt(&mut self, accepted: bool, training_user: &str, testing_user: &str) -> (r: bool)
        ensures
            r == (old(self).count(outcome(accepted, training_user@ == testing_user@)) < u32::MAX),
            r ==> *final(self) == recorded(*old(self), accepted, training_user@ == testing_user@),
            !r ==> *final(self) == *old(self),
    {
        let genuine = same_text(training_user, testing_user);
        let current = if accepted {
            if genuine {
                self.genuine_accept
            } else {
                self.false_accept
            }
        } else {
            if genuine {
                self.false_reject
            } else {
                self.genuine_reject
            }
        };
        if current == u32::MAX {
            return false;
        }
        self.record_attempt(accepted, training_user, testing_user);
        true
    }

    /// The value of one counter.
    pub fn counter(&self, c: Counter) -> (r: u32)
        ensures
            r == self.count(c),
    {
        match c {
            Counter::FalseAccept => self.false_accept,
            Counter::FalseReject => self.false_reject,
            Counter::GenuineAccept => self.genuine_accept,
            Counter::GenuineReject => self.genuine_reject,
        }
    }

    /// False accepts per impostor user: the false accept count divided by
    /// the number of users other than the genuine one.
    pub fn false_accepts_per_impostor(&self, num_users: u32) -> (r: u32)
        requires
            num_users >= 2,
        ensures
            r == self.false_accept / ((num_users - 1) as u32),
    {
        self.false_accept / (num_users - 1)
    }

    /// The counters written out as
    /// `false_accept: .., false_reject: .., genuine_accept: .., genuine_reject: ..`.
    pub fn describe(&self) -> (r: String)
        ensures
            r@ == "false_accept: "@ + decimal(self.false_accept as nat) + ", false_reject: "@
                + decimal(self.false_reject as nat) + ", genuine_accept: "@ + decimal(
                self.genuine_accept as nat,
            ) + ", genuine_reject: "@ + decimal(self.genuine_reject as nat),
    {
        let mut s = String::from_str("false_accept: ");
        append_decimal(&mut s, self.false_accept as u64);
        s.append(", false_reject: ");
        append_decimal(&mut s, self.false_reject as u64);
        s.append(", genuine_accept: ");
        append_decimal(&mut s, self.genuine_accept as u64);
        s.append(", genuine_reject: ");
        append_decimal(&mut s, self.genuine_reject as u64);
        s
    }
}

/// The sum of one counter over a run of results.
pub open spec fn total(results: Seq<TestResult>, c: Counter) -> nat
    decreases results.len(),
{
    if results.len() == 0 {
        0
    } else {
        total(results.drop_last(), c) + results.last().count(c)
    }
}

/// A prefix never sums to more than the whole run.
proof fn lemma_total_prefix(results: Seq<TestResult>, c: Counter, i: int)
    requires
        0 <= i <= results.len(),
    ensures
        total(results.take(i), c) <= total(results, c),
    decreases results.len(),
{
    if i < results.len() {
        assert(results.drop_last().take(i) =~= results.take(i));
        lemma_total_prefix(results.drop_last(), c, i);
    } else {
        assert(results.take(i) =~= results);
    }
}

/// The counters of a run of results, each summed and divided by the length of
/// the run taken as a `u32`.
pub fn average_result(results_array: &mut [TestResult]) -> (r: TestResult)
    requires
        #[verifier::truncate] (old(results_array)@.len() as u32) != 0,
        forall|c: Counter| #[trigger] total(old(results_array)@, c) <= u32::MAX,
    ensures
        final(results_array)@ == old(results_array)@,
        forall|c: Counter|
            #[trigger] r.count(c) == total(old(results_array)@, c) / (
            #[verifier::truncate] (old(results_array)@.len() as u32)) as nat,
{
    let ghost all = results_array@;
    let mut results = TestResult::new();
    let len = results_array.len();
    let mut i: usize = 0;
    while i < len
        invariant
            results_array@ == all,
            len == all.len(),
            i <= len,
            forall|c: Counter| #[trigger] total(all, c) <= u32::MAX,
            forall|c: Counter| #[trigger] results.count(c) == total(all.take(i as int), c),
        decreases len - i,
    {
        let result = results_array[i];
        proof {
            lemma_step_fits(all, results, result, i as int, Counter::GenuineAccept);
            lemma_step_fits(all, results, result, i as int, Counter::GenuineReject);
            lemma_step_fits(all, results, result, i as int, Counter::FalseAccept);
            lemma_step_fits(all, results, result, i as int, Counter::FalseReject);
        }
        results.genuine_accept = results.genuine_accept + result.genuine_accept;
        results.genuine_reject = results.genuine_reject + result.genuine_reject;
        results.false_accept = results.false_accept + result.false_accept;
        results.false_reject = results.false_reject + result.false_reject;
        i = i + 1;
    }
    proof {
        assert(all.take(len as int) =~= all);
        assert(results.count(Counter::GenuineAccept) == total(all, Counter::GenuineAccept));
        assert(results.count(Counter::GenuineReject) == total(all, Counter::GenuineReject));
        assert(results.count(Counter::FalseAccept) == total(all, Counter::FalseAccept));
        assert(results.count(Counter::FalseReject) == total(all, Counter::FalseReject));
    }
    #[verifier::truncate]
    let n = len as u32;
    results.genuine_accept = results.genuine_accept / n;
    results.genuine_reject = results.genuine_reject / n;
    results.false_accept = results.false_accept / n;
    results.false_reject = results.false_reject / n;
    results
}

/// One more result keeps the running sum of a counter within a `u32`.
proof fn lemma_step_fits(all: Seq<TestResult>, sum: TestResult, next: TestResult, i: int, c: Counter)
    requires
        0 <= i < all.len(),
        all[i] == next,
        sum.count(c) == total(all.take(i), c),
        total(all, c) <= u32::MAX,
    ensures
        sum.count(c) + next.count(c) == total(all.take(i + 1), c),
        sum.count(c) + next.count(c) <= u32::MAX,
{
    assert(all.take(i + 1).drop_last() =~= all.take(i));
    lemma_total_prefix(all, c, i + 1);
}

/// Adding one to the counter of an outcome adds one to the sum of the counters.
proof fn lemma_record_counts_once(before: TestResult, after: TestResult, accepted: bool, genuine: bool)
    requires
        forall|c: Counter|
            #[trigger] after.count(c) == before.count(c) + if c == outcome(accepted, genuine) {
                1nat
            } else {
                0nat
            },
    ensures
        after.attempts() == before.attempts() + 1,
{
    assert(after.count(Counter::FalseAccept) == after.false_accept);
    assert(after.count(Counter::FalseReject) == after.false_reject);
    assert(after.count(Counter::GenuineAccept) == after.genuine_accept);
    assert(after.count(Counter::GenuineReject) == after.genuine_reject);
}

/// How many attempts of a run land in counter `c`.
pub open spec fn landed(attempts: Seq<(bool, bool)>, c: Counter) -> nat
    decreases attempts.len(),
{
    if attempts.len() == 0 {
        0
    } else {
        let last = attempts.last();
        landed(attempts.drop_last(), c) + if outcome(last.0, last.1) == c {
            1nat
        } else {
            0nat
        }
    }
}

/// Recording the run from `start` never overflows: each attempt finds room in
/// its counter, as `record_attempt` requires.
pub open spec fn tally_fits(start: TestResult, attempts: Seq<(bool, bool)>) -> bool
    decreases attempts.len(),
{
    if attempts.len() == 0 {
        true
    } else {
        let last = attempts.last();
        tally_fits(start, attempts.drop_last()) && tally(start, attempts.drop_last()).count(
            outcome(last.0, last.1),
        ) < u32::MAX
    }
}

/// Without overflow, each counter ends at its start plus the attempts that
/// land in it.
proof fn lemma_tally_counts(start: TestResult, attempts: Seq<(bool, bool)>, c: Counter)
    requires
        tally_fits(start, attempts),
    ensures
        tally(start, attempts).count(c) == start.count(c) + landed(attempts, c),
    decreases attempts.len(),
{
    if attempts.len() > 0 {
        lemma_tally_counts(start, attempts.drop_last(), c);
        let before = tally(start, attempts.drop_last());
        let last = attempts.last();
        lemma_tally_counts(start, attempts.drop_last(), outcome(last.0, last.1));
        assert(before.count(outcome(last.0, last.1)) < u32::MAX);
    }
}

/// Judging each attempt at least as leniently moves attempts from the reject
/// counters to the accept counters and nowhere else.
proof fn lemma_landed_moves(stricter: Seq<(bool, bool)>, looser: Seq<(bool, bool)>)
    requires
        stricter.len() == looser.len(),
        forall|i: int|
            0 <= i < stricter.len() ==> #[trigger] stricter[i].1 == looser[i].1 && (stricter[i].0
                ==> looser[i].0),
    ensures
        landed(looser, Counter::FalseAccept) >= landed(stricter, Counter::FalseAccept),
        landed(looser, Counter::GenuineAccept) >= landed(stricter, Counter::GenuineAccept),
        landed(looser, Counter::FalseReject) <= landed(stricter, Counter::FalseReject),
        landed(looser, Counter::GenuineReject) <= landed(stricter, Counter::GenuineReject),
        landed(looser, Counter::FalseAccept) + landed(looser, Counter::GenuineAccept) + landed(
            looser,
            Counter::FalseReject,
        ) + landed(looser, Counter::GenuineReject) == landed(stricter, Counter::FalseAccept)
            + landed(stricter, Counter::GenuineAccept) + landed(stricter, Counter::FalseReject)
            + landed(stricter, Counter::GenuineReject),
    decreases stricter.len(),
{
    if stricter.len() > 0 {
        let s0 = stricter.drop_last();
        let l0 = looser.drop_last();
        assert forall|i: int|
            0 <= i < s0.len() implies #[trigger] s0[i].1 == l0[i].1 && (s0[i].0 ==> l0[i].0) by {
            assert(s0[i] == stricter[i]);
            assert(l0[i] == looser[i]);
            assert(stricter[i].1 == looser[i].1 && (stricter[i].0 ==> looser[i].0));
        }
        lemma_landed_moves(s0, l0);
        assert(stricter.last() == stricter[stricter.len() - 1]);
        assert(looser.last() == looser[looser.len() - 1]);
    }
}

/// Accepting more never turns an accept into a reject: when two runs judge
/// the same candidates, every attempt accepted in the first is accepted in
/// the second, and neither run overflows a counter, the second has at least
/// as many accepts of each kind and at most as many rejects of each kind.
pub proof fn lemma_accepting_more_moves_counts(
    start: TestResult,
    stricter: Seq<(bool, bool)>,
    looser: Seq<(bool, bool)>,
)
    requires
        stricter.len() == looser.len(),
        forall|i: int|
            0 <= i < stricter.len() ==> #[trigger] stricter[i].1 == looser[i].1 && (stricter[i].0
                ==> looser[i].0),
        tally_fits(start, stricter),
        tally_fits(start, looser),
    ensures
        tally(start, looser).false_accept >= tally(start, stricter).false_accept,
        tally(start, looser).genuine_accept >= tally(start, stricter).genuine_accept,
        tally(start, looser).false_reject <= tally(start, stricter).false_reject,
        tally(start, looser).genuine_reject <= tally(start, stricter).genuine_reject,
        tally(start, looser).attempts() == tally(start, stricter).attempts(),
{
    lemma_landed_moves(stricter, looser);
    lemma_tally_counts(start, stricter, Counter::FalseAccept);
    lemma_tally_counts(start, stricter, Counter::FalseReject);
    lemma_tally_counts(start, stricter, Counter::GenuineAccept);
    lemma_tally_counts(start, stricter, Counter::GenuineReject);
    lemma_tally_counts(start, looser, Counter::FalseAccept);
    lemma_tally_counts(start, looser, Counter::FalseReject);
    lemma_tally_counts(start, looser, Counter::GenuineAccept);
    lemma_tally_counts(start, looser, Counter::GenuineReject);
}

/// Whether one counter summed over a run of results fits in a `u32`.
fn counter_sum_fits(results_array: &[TestResult], c: Counter) -> (r: bool)
    ensures
        r == (total(results_array@, c) <= u32::MAX),
{
    let ghost all = results_array@;
    let mut sum: u32 = 0;
    let mut i: usize = 0;
    while i < results_array.len()
        invariant
            all == results_array@,
            i <= all.len(),
            sum == total(all.take(i as int), c),
        decreases all.len() - i,
    {
        let next = results_array[i].counter(c);
        proof {
            assert(all.take(i + 1).drop_last() =~= all.take(i as int));
        }
        match sum.checked_add(next) {
            Some(v) => {
                sum = v;
            },
            None => {
                proof {
                    lemma_total_prefix(all, c, i + 1);
                }
                return false;
            },
        }
        i = i + 1;
    }
    proof {
        assert(all.take(i as int) =~= all);
    }
    true
}

/// Averages a run of results as `average_result` does when that is defined:
/// `None` when the length taken as a `u32` is zero or a counter's sum leaves
/// the `u32` range.
pub fn try_average_result(results_array: &mut [TestResult]) -> (r: Option<TestResult>)
    ensures
        final(results_array)@ == old(results_array)@,
        r is Some <==> ((#[verifier::truncate] (old(results_array)@.len() as u32)) != 0 && forall|
            c: Counter,
        | #[trigger] total(old(results_array)@, c) <= u32::MAX),
        r matches Some(v) ==> forall|c: Counter|
            #[trigger] v.count(c) == total(old(results_array)@, c) / (
            #[verifier::truncate] (old(results_array)@.len() as u32)) as nat,
{
    #[verifier::truncate]
    let n = results_array.len() as u32;
    if n == 0 {
        return None;
    }
    let fa = counter_sum_fits(results_array, Counter::FalseAccept);
    let fr = counter_sum_fits(results_array, Counter::FalseReject);
    let ga = counter_sum_fits(results_array, Counter::GenuineAccept);
    let gr = counter_sum_fits(results_array, Counter::GenuineReject);
    if !(fa && fr && ga && gr) {
        return None;
    }
    assert forall|c: Counter| #[trigger] total(results_array@, c) <= u32::MAX by {
        match c {
            Counter::FalseAccept => {},
            Counter::FalseReject => {},
            Counter::GenuineAccept => {},
            Counter::GenuineReject => {},
        }
    }
    Some(average_result(results_array))
}

} // verus!
