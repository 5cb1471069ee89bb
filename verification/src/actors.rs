//! The decisions of counter and registry actors, as functions from
//! an actor's state and the message it receives to its next state and reply.
//! Receiving, replying and printing are left to the actor's thread.
use vstd::prelude::*;
use crate::text::{join2, join3, str_eq};

verus! {

/// A message to the counter actor, without its reply channel.
#[derive(Clone, Copy, Debug, PartialEq, Eq, Structural)]
pub enum CounterOp {
    Increment(i64),
    Decrement(i64),
    Multiply(i64),
    Divide(i64),
    SetTo(i64),
    Get,
    Status,
    Stop,
}

/// What the counter actor does with a message.
#[derive(Clone, Copy, Debug, PartialEq, Eq, Structural)]
pub enum CounterOutcome {
    /// Keeps running with this count.
    Continue(i64),
    /// Sends the count to the asker and keeps running.
    Reply(i64),
    /// Prints the count and keeps running.
    Report(i64),
    /// Prints the final count and stops.
    Stopped(i64),
    /// The arithmetic overflowed or divided by zero: the actor's thread
    /// panics.
    Crash,
}

/// `v` as an `i64`, or a crash when it does not fit.
pub open spec fn fit(v: int) -> CounterOutcome {
    if i64::MIN <= v <= i64::MAX {
        CounterOutcome::Continue(v as i64)
    } else {
        CounterOutcome::Crash
    }
}

/// Integer division rounding toward zero, as Rust's `/` does.
pub open spec fn div_toward_zero(a: int, b: int) -> int {
    if a >= 0 && b > 0 {
        a / b
    } else if a < 0 && b < 0 {
        (-a) / (-b)
    } else if a < 0 {
        -((-a) / b)
    } else {
        -(a / (-b))
    }
}

/// The counter actor's response to `op` while holding `count`.
pub open spec fn counter_spec(count: i64, op: CounterOp) -> CounterOutcome {
    match op {
        CounterOp::Increment(n) => fit(count + n),
        CounterOp::Decrement(n) => fit(count - n),
        CounterOp::Multiply(n) => fit(count * n),
        CounterOp::Divide(n) => if n == 0 {
            CounterOutcome::Crash
        } else {
            fit(div_toward_zero(count as int, n as int))
        },
        CounterOp::SetTo(n) => CounterOutcome::Continue(n),
        CounterOp::Get => CounterOutcome::Reply(count),
        CounterOp::Status => CounterOutcome::Report(count),
        CounterOp::Stop => CounterOutcome::Stopped(count),
    }
}

/// The counter actor's response to one message.
pub fn counter_step(count: i64, op: CounterOp) -> (r: CounterOutcome)
    ensures
        r == counter_spec(count, op),
{
    match op {
        CounterOp::Increment(n) => match count.checked_add(n) {
            Some(v) => CounterOutcome::Continue(v),
            None => CounterOutcome::Crash,
        },
        CounterOp::Decrement(n) => match count.checked_sub(n) {
            Some(v) => CounterOutcome::Continue(v),
            None => CounterOutcome::Crash,
        },
        CounterOp::Multiply(n) => match count.checked_mul(n) {
            Some(v) => CounterOutcome::Continue(v),
            None => CounterOutcome::Crash,
        },
        CounterOp::Divide(n) => {
            if n == 0 {
                CounterOutcome::Crash
            } else {
                match count.checked_div(n) {
                    Some(v) => CounterOutcome::Continue(v),
                    None => CounterOutcome::Crash,
                }
            }
        },
        CounterOp::SetTo(n) => CounterOutcome::Continue(n),
        CounterOp::Get => CounterOutcome::Reply(count),
        CounterOp::Status => CounterOutcome::Report(count),
        CounterOp::Stop => CounterOutcome::Stopped(count),
    }
}

/// Adding, subtracting and multiplying give the exact integer result when
/// it fits in an `i64`, and crash exactly when it does not.
pub proof fn lemma_counter_arithmetic(count: i64, n: i64)
    ensures
        counter_spec(count, CounterOp::Increment(n)) is Continue ==> counter_spec(
            count,
            CounterOp::Increment(n),
        )->Continue_0 == count + n,
        (counter_spec(count, CounterOp::Increment(n)) is Crash) == (count + n > i64::MAX || count
            + n < i64::MIN),
        counter_spec(count, CounterOp::Decrement(n)) is Continue ==> counter_spec(
            count,
            CounterOp::Decrement(n),
        )->Continue_0 == count - n,
        (counter_spec(count, CounterOp::Decrement(n)) is Crash) == (count - n > i64::MAX || count
            - n < i64::MIN),
        counter_spec(count, CounterOp::Multiply(n)) is Continue ==> counter_spec(
            count,
            CounterOp::Multiply(n),
        )->Continue_0 == count * n,
        (counter_spec(count, CounterOp::Multiply(n)) is Crash) == (count * n > i64::MAX || count
            * n < i64::MIN),
{
}

/// Division truncates toward zero: the quotient times the divisor is the
/// count less a remainder smaller than the divisor in size and of the
/// count's sign. It crashes exactly on a zero divisor and on `i64::MIN / -1`.
pub proof fn lemma_counter_divide(count: i64, n: i64)
    ensures
        (counter_spec(count, CounterOp::Divide(n)) is Crash) == (n == 0 || (count == i64::MIN && n
            == -1)),
        counter_spec(count, CounterOp::Divide(n)) matches CounterOutcome::Continue(q) ==> {
            let rem = count - q * n;
            &&& -abs_int(n as int) < rem < abs_int(n as int)
            &&& (count >= 0 ==> rem >= 0)
            &&& (count <= 0 ==> rem <= 0)
        },
{
    if n != 0 {
        let (a, b) = (count as int, n as int);
        let q = div_toward_zero(a, b);
        let rem = a - q * b;
        if a >= 0 && b > 0 {
            vstd::arithmetic::div_mod::lemma_fundamental_div_mod(a, b);
            vstd::arithmetic::div_mod::lemma_mod_pos_bound(a, b);
            assert(rem == a % b) by (nonlinear_arith)
                requires
                    q == a / b,
                    rem == a - q * b,
                    a == b * (a / b) + a % b,
            ;
            if a == 0 {
                vstd::arithmetic::div_mod::lemma_small_mod(0, b as nat);
            }
            assert(-abs_int(b) < rem < abs_int(b));
        } else if a < 0 && b < 0 {
            vstd::arithmetic::div_mod::lemma_fundamental_div_mod(-a, -b);
            vstd::arithmetic::div_mod::lemma_mod_pos_bound(-a, -b);
            assert(rem == -((-a) % (-b))) by (nonlinear_arith)
                requires
                    q == (-a) / (-b),
                    rem == a - q * b,
                    -a == (-b) * ((-a) / (-b)) + (-a) % (-b),
            ;
        } else if a < 0 {
            vstd::arithmetic::div_mod::lemma_fundamental_div_mod(-a, b);
            vstd::arithmetic::div_mod::lemma_mod_pos_bound(-a, b);
            assert(rem == -((-a) % b)) by (nonlinear_arith)
                requires
                    q == -((-a) / b),
                    rem == a - q * b,
                    -a == b * ((-a) / b) + (-a) % b,
            ;
        } else {
            vstd::arithmetic::div_mod::lemma_fundamental_div_mod(a, -b);
            vstd::arithmetic::div_mod::lemma_mod_pos_bound(a, -b);
            assert(rem == a % (-b)) by (nonlinear_arith)
                requires
                    q == -(a / (-b)),
                    rem == a - q * b,
                    a == (-b) * (a / (-b)) + a % (-b),
            ;
            if a == 0 {
                vstd::arithmetic::div_mod::lemma_small_mod(0, (-b) as nat);
            }
        }
        if !(count == i64::MIN && n == -1) {
            lemma_quotient_fits(a, b);
        } else {
            vstd::arithmetic::div_mod::lemma_div_basics(-a);
            assert(q == -a);
        }
    }
}

/// The size of `v`.
pub open spec fn abs_int(v: int) -> int {
    if v < 0 {
        -v
    } else {
        v
    }
}

proof fn lemma_quotient_fits(a: int, b: int)
    requires
        i64::MIN <= a <= i64::MAX,
        i64::MIN <= b <= i64::MAX,
        b != 0,
        !(a == i64::MIN && b == -1),
    ensures
        i64::MIN <= div_toward_zero(a, b) <= i64::MAX,
{
    if a >= 0 && b > 0 {
        vstd::arithmetic::div_mod::lemma_div_basics_5(a, b);
        vstd::arithmetic::div_mod::lemma_div_basics_4(a, b);
    } else if a < 0 && b < 0 {
        vstd::arithmetic::div_mod::lemma_div_basics_4(-a, -b);
        if b == -1 {
            vstd::arithmetic::div_mod::lemma_div_basics(-a);
        } else {
            vstd::arithmetic::div_mod::lemma_div_is_ordered_by_denominator(-a, 2, -b);
            vstd::arithmetic::div_mod::lemma_div_is_ordered(-a, 0x8000_0000_0000_0000, 2);
        }
    } else if a < 0 {
        vstd::arithmetic::div_mod::lemma_div_basics_5(-a, b);
        vstd::arithmetic::div_mod::lemma_div_basics_4(-a, b);
    } else {
        vstd::arithmetic::div_mod::lemma_div_basics_5(a, -b);
        vstd::arithmetic::div_mod::lemma_div_basics_4(a, -b);
    }
}

/// Asking for the count, a status report and stopping all leave the count
/// as it was, and setting replaces it.
pub proof fn lemma_counter_queries_keep_count(count: i64, n: i64)
    ensures
        counter_spec(count, CounterOp::Get) == CounterOutcome::Reply(count),
        counter_spec(count, CounterOp::Status) == CounterOutcome::Report(count),
        counter_spec(count, CounterOp::Stop) == CounterOutcome::Stopped(count),
        counter_spec(count, CounterOp::SetTo(n)) == CounterOutcome::Continue(n),
{
}

/// The message shown when `name` is registered twice: the name in single
/// quotes, then ` already registered`.
pub open spec fn registered_message(name: Seq<char>) -> Seq<char> {
    "'"@ + name + "' already registered"@
}

fn already_registered(name: &str) -> (r: String)
    ensures
        r@ == registered_message(name@),
{
    join3("'", name, "' already registered")
}

/// The address an actor registered as `name` is known by: `actor:` and the
/// name.
pub open spec fn address_of(name: Seq<char>) -> Seq<char> {
    seq!['a', 'c', 't', 'o', 'r', ':'] + name
}

/// The name registry actor's table: each name at most once.
pub struct Registry {
    entries: Vec<(String, String)>,
}

/// Whether no name occurs twice in `e`.
pub open spec fn names_distinct(e: Seq<(String, String)>) -> bool {
    forall|i: int, j: int| 0 <= i < j < e.len() ==> (#[trigger] e[i]).0@ != (#[trigger] e[j]).0@
}

impl View for Registry {
    type V = Map<Seq<char>, Seq<char>>;

    closed spec fn view(&self) -> Map<Seq<char>, Seq<char>> {
        Map::new(
            |n: Seq<char>| exists|i: int| 0 <= i < self.entries@.len() && self.entries@[i].0@ == n,
            |n: Seq<char>|
                {
                    let i = choose|i: int| 0 <= i < self.entries@.len() && self.entries@[i].0@ == n;
                    self.entries@[i].1@
                },
        )
    }
}

impl Registry {
    /// Each name at most once.
    pub closed spec fn wf(&self) -> bool {
        names_distinct(self.entries@)
    }

    /// An empty table.
    pub fn new() -> (r: Self)
        ensures
            r.wf(),
            r@ == Map::<Seq<char>, Seq<char>>::empty(),
    {
        let r = Registry { entries: Vec::new() };
        assert(r@ =~= Map::<Seq<char>, Seq<char>>::empty());
        r
    }

    fn find(&self, name: &str) -> (r: Option<usize>)
        requires
            self.wf(),
        ensures
            r matches Some(i) ==> i < self.entries@.len() && self.entries@[i as int].0@ == name@,
            r is None ==> forall|i: int|
                0 <= i < self.entries@.len() ==> (#[trigger] self.entries@[i]).0@ != name@,
    {
        let mut i: usize = 0;
        while i < self.entries.len()
            invariant
                i <= self.entries@.len(),
                forall|k: int| 0 <= k < i ==> (#[trigger] self.entries@[k]).0@ != name@,
            decreases self.entries@.len() - i,
        {
            if str_eq(self.entries[i].0.as_str(), name) {
                return Some(i);
            }
            i = i + 1;
        }
        None
    }

    proof fn lemma_view_at(&self, i: int)
        requires
            self.wf(),
            0 <= i < self.entries@.len(),
        ensures
            self@.contains_key(self.entries@[i].0@),
            self@[self.entries@[i].0@] == self.entries@[i].1@,
    {
        let n = self.entries@[i].0@;
        let j = choose|j: int| 0 <= j < self.entries@.len() && self.entries@[j].0@ == n;
        if i != j {
            if i < j {
                assert(self.entries@[i].0@ != self.entries@[j].0@);
            } else {
                assert(self.entries@[j].0@ != self.entries@[i].0@);
            }
        }
    }

    /// Registers `name` at `actor:name`, or refuses with a message when the
    /// name is taken.
    pub fn register(&mut self, name: String) -> (r: Result<(), String>)
        requires
            old(self).wf(),
        ensures
            final(self).wf(),
            old(self)@.contains_key(name@) ==> r is Err && r->Err_0@ == registered_message(name@)
                && final(self)@ == old(self)@,
            !old(self)@.contains_key(name@) ==> r is Ok && final(self)@ == old(self)@.insert(
                name@,
                address_of(name@),
            ),
    {
        match self.find(name.as_str()) {
            Some(i) => {
                proof {
                    self.lemma_view_at(i as int);
                }
                Err(already_registered(name.as_str()))
            },
            None => {
                assert(!self@.contains_key(name@));
                let addr = join2("actor:", name.as_str());
                proof {
                    reveal_strlit("actor:");
                    assert(addr@ =~= address_of(name@));
                }
                let ghost before = self.entries@;
                self.entries.push((name, addr));
                proof {
                    assert forall|i: int, j: int|
                        0 <= i < j < self.entries@.len() implies (
                        #[trigger] self.entries@[i]).0@ != (#[trigger] self.entries@[j]).0@ by {
                        if j == before.len() {
                            assert(before[i] == self.entries@[i]);
                        } else {
                            assert(before[i] == self.entries@[i] && before[j] == self.entries@[j]);
                        }
                    }
                    assert forall|n: Seq<char>|
                        #![auto]
                        self@.contains_key(n) == old(self)@.insert(
                            name@,
                            address_of(name@),
                        ).contains_key(n) by {
                        if old(self)@.contains_key(n) {
                            let i = choose|i: int| 0 <= i < before.len() && before[i].0@ == n;
                            assert(self.entries@[i] == before[i]);
                        }
                        if self@.contains_key(n) && n != name@ {
                            let i = choose|i: int|
                                0 <= i < self.entries@.len() && self.entries@[i].0@ == n;
                            assert(i < before.len());
                            assert(self.entries@[i] == before[i]);
                        }
                        if n == name@ {
                            assert(self.entries@[before.len() as int].0@ == n);
                        }
                    }
                    assert forall|n: Seq<char>|
                        #![auto]
                        self@.contains_key(n) implies self@[n] == old(self)@.insert(
                            name@,
                            address_of(name@),
                        )[n] by {
                        let i = choose|i: int|
                            0 <= i < self.entries@.len() && self.entries@[i].0@ == n;
                        self.lemma_view_at(i);
                        if i < before.len() {
                            assert(self.entries@[i] == before[i]);
                            old(self).lemma_view_at(i);
                        }
                    }
                    assert(self@ =~= old(self)@.insert(name@, address_of(name@)));
                }
                Ok(())
            },
        }
    }

    /// The address registered under `name`, if any.
    pub fn lookup(&self, name: &str) -> (r: Option<String>)
        requires
            self.wf(),
        ensures
            self@.contains_key(name@) ==> r is Some && r->Some_0@ == self@[name@],
            !self@.contains_key(name@) ==> r is None,
    {
        match self.find(name) {
            Some(i) => {
                proof {
                    self.lemma_view_at(i as int);
                }
                Some(self.entries[i].1.clone())
            },
            None => None,
        }
    }

    /// Removes `name`, if registered.
    pub fn unregister(&mut self, name: &str)
        requires
            old(self).wf(),
        ensures
            final(self).wf(),
            final(self)@ == old(self)@.remove(name@),
    {
        match self.find(name) {
            Some(i) => {
                let ghost before = self.entries@;
                self.entries.remove(i);
                proof {
                    assert forall|a: int, b: int|
                        0 <= a < b < self.entries@.len() implies (
                        #[trigger] self.entries@[a]).0@ != (#[trigger] self.entries@[b]).0@ by {
                        let a0 = if a < i { a } else { a + 1 };
                        let b0 = if b < i { b } else { b + 1 };
                        assert(self.entries@[a] == before[a0]);
                        assert(self.entries@[b] == before[b0]);
                    }
                    assert forall|n: Seq<char>|
                        #![auto]
                        self@.contains_key(n) == old(self)@.remove(name@).contains_key(n) by {
                        if self@.contains_key(n) {
                            let k = choose|k: int|
                                0 <= k < self.entries@.len() && self.entries@[k].0@ == n;
                            let k0 = if k < i { k } else { k + 1 };
                            assert(self.entries@[k] == before[k0]);
                            assert(k0 != i as int);
                            assert(before[k0].0@ != before[i as int].0@);
                        }
                        if old(self)@.contains_key(n) && n != name@ {
                            let k = choose|k: int| 0 <= k < before.len() && before[k].0@ == n;
                            assert(k != i as int);
                            let k1 = if k < i { k } else { k - 1 };
                            assert(self.entries@[k1] == before[k]);
                        }
                    }
                    assert forall|n: Seq<char>|
                        #![auto]
                        self@.contains_key(n) implies self@[n] == old(self)@[n] by {
                        let k = choose|k: int|
                            0 <= k < self.entries@.len() && self.entries@[k].0@ == n;
                        self.lemma_view_at(k);
                        let k0 = if k < i { k } else { k + 1 };
                        assert(self.entries@[k] == before[k0]);
                        old(self).lemma_view_at(k0);
                    }
                    assert(self@ =~= old(self)@.remove(name@));
                }
            },
            None => {
                assert(!self@.contains_key(name@));
                assert(self@ =~= old(self)@.remove(name@));
            },
        }
    }

    /// The registered names and addresses, in registration order.
    pub fn entries(&self) -> (r: Vec<(String, String)>)
        requires
            self.wf(),
        ensures
            names_distinct(r@),
            forall|i: int|
                0 <= i < r@.len() ==> self@.contains_key((#[trigger] r@[i]).0@) && self@[r@[i].0@]
                    == r@[i].1@,
            forall|n: Seq<char>|
                self@.contains_key(n) ==> exists|i: int| 0 <= i < r@.len() && (#[trigger] r@[i]).0@ == n,
    {
        let mut out: Vec<(String, String)> = Vec::new();
        let mut i: usize = 0;
        while i < self.entries.len()
            invariant
                self.wf(),
                i <= self.entries@.len(),
                out@.len() == i,
                forall|k: int|
                    0 <= k < i ==> (#[trigger] out@[k]).0@ == self.entries@[k].0@ && out@[k].1@
                        == self.entries@[k].1@,
            decreases self.entries@.len() - i,
        {
            let e = (self.entries[i].0.clone(), self.entries[i].1.clone());
            out.push(e);
            i = i + 1;
        }
        proof {
            assert forall|k: int| 0 <= k < out@.len() implies self@.contains_key(
                (#[trigger] out@[k]).0@,
            ) && self@[out@[k].0@] == out@[k].1@ by {
                self.lemma_view_at(k);
            }
            assert forall|a: int, b: int|
                0 <= a < b < out@.len() implies (#[trigger] out@[a]).0@ != (#[trigger] out@[b]).0@ by {
                assert(self.entries@[a].0@ != self.entries@[b].0@);
            }
            assert forall|n: Seq<char>| self@.contains_key(n) implies exists|i: int|
                0 <= i < out@.len() && (#[trigger] out@[i]).0@ == n by {
                let k = choose|k: int| 0 <= k < self.entries@.len() && self.entries@[k].0@ == n;
                assert(out@[k].0@ == n);
            }
        }
        out
    }
}

} // verus!
