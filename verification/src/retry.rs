//! The retry coordinator: one logical operation run as an ordered sequence
//! of attempts. The first success wins and no further attempt runs; when
//! every attempt fails, the duplicate-free join of the failure messages is
//! the aggregate failure.

use vstd::prelude::*;

verus! {

/// Duplicate messages removed: each distinct message once, in
/// first-occurrence order.
pub open spec fn dedup_spec(s: Seq<Seq<char>>) -> Seq<Seq<char>>
    decreases s.len(),
{
    if s.len() == 0 {
        Seq::empty()
    } else if s.drop_last().contains(s.last()) {
        dedup_spec(s.drop_last())
    } else {
        dedup_spec(s.drop_last()).push(s.last())
    }
}

/// Messages joined with a comma and a space.
pub open spec fn join_spec(s: Seq<Seq<char>>) -> Seq<char>
    decreases s.len(),
{
    if s.len() == 0 {
        Seq::empty()
    } else if s.len() == 1 {
        s[0]
    } else {
        join_spec(s.drop_last()) + ", "@ + s.last()
    }
}

/// The aggregate failure message of an ordered list of attempt failures.
pub open spec fn aggregate_spec(msgs: Seq<Seq<char>>) -> Seq<char> {
    join_spec(dedup_spec(msgs))
}

/// Deduplication keeps exactly the messages that occur.
pub proof fn lemma_dedup_contains(s: Seq<Seq<char>>, x: Seq<char>)
    ensures
        dedup_spec(s).contains(x) <==> s.contains(x),
    decreases s.len(),
{
    if s.len() > 0 {
        lemma_dedup_contains(s.drop_last(), x);
        if s.contains(x) {
            let i = choose|i: int| 0 <= i < s.len() && s[i] == x;
            if i < s.len() - 1 {
                assert(s.drop_last()[i] == x);
                assert(s.drop_last().contains(x));
            }
            if !s.drop_last().contains(s.last()) && x == s.last() {
                assert(dedup_spec(s).last() == x);
            }
        }
        if dedup_spec(s).contains(x) {
            if s.drop_last().contains(s.last()) {
                assert(s.drop_last().contains(x));
                let i = choose|i: int| 0 <= i < s.drop_last().len() && s.drop_last()[i] == x;
                assert(s[i] == x);
            } else {
                let d = dedup_spec(s);
                let i = choose|i: int| 0 <= i < d.len() && d[i] == x;
                if i < d.len() - 1 {
                    assert(d.drop_last()[i] == x);
                    assert(dedup_spec(s.drop_last()).contains(x));
                    let j = choose|j: int|
                        0 <= j < s.drop_last().len() && s.drop_last()[j] == x;
                    assert(s[j] == x);
                } else {
                    assert(s.last() == x);
                }
            }
        }
        if s.contains(x) {
            assert(dedup_spec(s).contains(x)) by {
                if s.drop_last().contains(x) {
                    if s.drop_last().contains(s.last()) {
                    } else {
                        let d = dedup_spec(s.drop_last());
                        let i = choose|i: int| 0 <= i < d.len() && d[i] == x;
                        assert(dedup_spec(s)[i] == x);
                    }
                } else {
                    let i = choose|i: int| 0 <= i < s.len() && s[i] == x;
                    assert(i == s.len() - 1) by {
                        if i < s.len() - 1 {
                            assert(s.drop_last()[i] == x);
                        }
                    }
                    assert(x == s.last());
                    assert(!s.drop_last().contains(s.last()));
                    assert(dedup_spec(s).last() == x);
                }
            }
        }
    }
}

/// Whether any of the kept messages equals the given one.
fn already_kept(deduped: &Vec<&String>, msg: &String) -> (r: bool)
    ensures
        r == deduped@.map_values(|m: &String| m@).contains(msg@),
{
    let ghost dm = deduped@.map_values(|m: &String| m@);
    let mut k: usize = 0;
    while k < deduped.len()
        invariant
            dm == deduped@.map_values(|m: &String| m@),
            k <= deduped@.len(),
            forall|j: int| 0 <= j < k ==> dm[j] != msg@,
        decreases deduped@.len() - k,
    {
        if crate::text::str_eq(deduped[k].as_str(), msg.as_str()) {
            proof {
                assert(dm[k as int] == msg@);
            }
            return true;
        }
        k += 1;
    }
    proof {
        if dm.contains(msg@) {
            let j = choose|j: int| 0 <= j < dm.len() && dm[j] == msg@;
            assert(dm[j] != msg@);
        }
    }
    false
}

/// Joins an ordered list of failure messages, keeping each distinct
/// message once, in first-occurrence order.
pub fn aggregate_errors(msgs: &Vec<String>) -> (r: String)
    ensures
        r@ == aggregate_spec(msgs@.map_values(|m: String| m@)),
{
    let ghost model = msgs@.map_values(|m: String| m@);
    let mut deduped: Vec<&String> = Vec::new();
    let mut i: usize = 0;
    proof {
        assert(model.take(0) =~= Seq::<Seq<char>>::empty());
        assert(deduped@.map_values(|m: &String| m@) =~= dedup_spec(model.take(0)));
    }
    while i < msgs.len()
        invariant
            model == msgs@.map_values(|m: String| m@),
            i <= msgs@.len(),
            deduped@.map_values(|m: &String| m@) == dedup_spec(model.take(i as int)),
        decreases msgs.len() - i,
    {
        let keep = !already_kept(&deduped, &msgs[i]);
        proof {
            assert(model.take(i as int + 1).drop_last() =~= model.take(i as int));
            assert(model.take(i as int + 1).last() == model[i as int]);
            lemma_dedup_contains(model.take(i as int), model[i as int]);
        }
        if keep {
            let ghost d0 = deduped@;
            deduped.push(&msgs[i]);
            proof {
                assert(deduped@.map_values(|m: &String| m@) =~= d0.map_values(|m: &String| m@)
                    .push(model[i as int]));
            }
        }
        i += 1;
    }
    proof {
        assert(model.take(model.len() as int) =~= model);
    }
    let mut r = String::new();
    let mut k: usize = 0;
    let ghost dm = deduped@.map_values(|m: &String| m@);
    if deduped.len() == 0 {
        proof {
            assert(join_spec(dm) =~= Seq::<char>::empty());
        }
        return r;
    }
    r.append(deduped[0].as_str());
    k = 1;
    proof {
        assert(dm.take(1).drop_last() =~= Seq::<Seq<char>>::empty());
        assert(r@ == join_spec(dm.take(1)));
    }
    while k < deduped.len()
        invariant
            dm == deduped@.map_values(|m: &String| m@),
            1 <= k <= deduped@.len(),
            r@ == join_spec(dm.take(k as int)),
        decreases deduped.len() - k,
    {
        r.append(", ");
        r.append(deduped[k].as_str());
        proof {
            assert(dm.take(k as int + 1).drop_last() =~= dm.take(k as int));
            assert(dm.take(k as int + 1).last() == dm[k as int]);
            assert(dm.take(k as int + 1)[0] == dm[0]);
            assert(r@ == join_spec(dm.take(k as int + 1)));
        }
        k += 1;
    }
    proof {
        assert(dm.take(dm.len() as int) =~= dm);
    }
    r
}

/// Law: when every attempt fails with the same message, the aggregate is
/// exactly that message, kept once.
pub proof fn lemma_aggregate_all_same(msgs: Seq<Seq<char>>, e: Seq<char>)
    requires
        msgs.len() > 0,
        forall|i: int| 0 <= i < msgs.len() ==> #[trigger] msgs[i] == e,
    ensures
        aggregate_spec(msgs) == e,
    decreases msgs.len(),
{
    if msgs.len() == 1 {
        assert(!msgs.drop_last().contains(msgs.last()));
        assert(dedup_spec(msgs.drop_last()) =~= Seq::<Seq<char>>::empty());
        assert(dedup_spec(msgs) =~= seq![e]);
    } else {
        assert(msgs.last() == e && msgs[0] == e);
        assert(msgs.drop_last()[0] == e);
        assert(msgs.drop_last().contains(msgs.last()));
        assert(forall|i: int|
            0 <= i < msgs.drop_last().len() ==> #[trigger] msgs.drop_last()[i] == e);
        lemma_aggregate_all_same(msgs.drop_last(), e);
    }
}

/// What the coordinator asks for next: run another attempt, or give the
/// operation up with the aggregate failure.
pub enum RetryDecision {
    Attempt,
    GiveUp(String),
}

/// The retry coordinator's state: how many attempts remain and the
/// failure messages collected so far. Attempt count is the configured
/// retry count plus one.
pub struct RetryCoordinator {
    pub attempts_left: usize,
    pub errors: Vec<String>,
}

impl RetryCoordinator {
    /// A coordinator for one operation with the given retry budget.
    pub fn new(retry_count: usize) -> (r: Self)
        requires
            retry_count < usize::MAX,
        ensures
            r.attempts_left == retry_count + 1,
            r.errors@.len() == 0,
    {
        RetryCoordinator { attempts_left: retry_count + 1, errors: Vec::new() }
    }

    /// What to do next: attempt while budget remains, else give up with
    /// the aggregate of the collected failures.
    pub fn decide(&self) -> (r: RetryDecision)
        ensures
            match r {
                RetryDecision::Attempt => self.attempts_left > 0,
                RetryDecision::GiveUp(m) => self.attempts_left == 0 && m@ == aggregate_spec(
                    self.errors@.map_values(|e: String| e@),
                ),
            },
    {
        if self.attempts_left > 0 {
            RetryDecision::Attempt
        } else {
            RetryDecision::GiveUp(aggregate_errors(&self.errors))
        }
    }

    /// Records one attempt's failure, consuming one attempt of the
    /// budget. Strictly sequential: the caller runs the next attempt only
    /// after this returns.
    pub fn record_failure(&mut self, msg: String)
        requires
            old(self).attempts_left > 0,
        ensures
            final(self).attempts_left == old(self).attempts_left - 1,
            final(self).errors@ == old(self).errors@.push(msg),
    {
        self.attempts_left = self.attempts_left - 1;
        self.errors.push(msg);
    }
}

} // verus!
