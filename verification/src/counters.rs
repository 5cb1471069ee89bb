//! Shared counters and a snapshot object, as sequential state: each operation
//! takes the object exclusively, so one call is one atomic step and every
//! result is exact.
//!
//! Counters wrap at `usize::MAX + 1`, as the hardware fetch-and-add does.
use vstd::prelude::*;

verus! {

/// `v + d` wrapped into `usize`.
pub open spec fn wrap_add(v: int, d: int) -> usize {
    ((v + d) % (usize::MAX as int + 1)) as usize
}

fn add_wrapping(v: usize, d: usize) -> (r: usize)
    ensures
        r == wrap_add(v as int, d as int),
{
    let r = v.wrapping_add(d);
    assert(r == wrap_add(v as int, d as int)) by {
        if v + d > usize::MAX {
            assert((v + d) % (usize::MAX as int + 1) == v + d - (usize::MAX as int + 1)) by (
            nonlinear_arith)
                requires
                    usize::MAX < v + d <= 2 * usize::MAX,
            ;
        } else {
            assert((v + d) % (usize::MAX as int + 1) == v + d) by (nonlinear_arith)
                requires
                    0 <= v + d <= usize::MAX,
            ;
        }
    }
    r
}

/// A counter bumped by fetch-and-add.
pub struct AtomicCounter {
    value: usize,
}

impl AtomicCounter {
    /// The counter's value.
    pub closed spec fn value(&self) -> usize {
        self.value
    }

    /// A counter at zero.
    pub fn new() -> (r: Self)
        ensures
            r.value() == 0,
    {
        AtomicCounter { value: 0 }
    }

    /// Adds one and returns the value before.
    pub fn increment(&mut self) -> (r: usize)
        ensures
            r == old(self).value(),
            final(self).value() == wrap_add(old(self).value() as int, 1),
    {
        let r = self.value;
        self.value = add_wrapping(self.value, 1);
        r
    }

    /// The current value.
    pub fn get(&self) -> (r: usize)
        ensures
            r == self.value(),
    {
        self.value
    }
}

/// A counter kept behind a lock: increments one by one.
pub struct MutexCounter {
    inner: usize,
}

impl MutexCounter {
    /// The counter's value.
    pub closed spec fn value(&self) -> usize {
        self.inner
    }

    /// A counter at zero.
    pub fn new() -> (r: Self)
        ensures
            r.value() == 0,
    {
        MutexCounter { inner: 0 }
    }

    /// Adds one; the counter never passes `usize::MAX`.
    pub fn increment(&mut self)
        requires
            old(self).value() < usize::MAX,
        ensures
            final(self).value() == old(self).value() + 1,
    {
        self.inner = self.inner + 1;
    }

    /// The current value.
    pub fn get(&self) -> (r: usize)
        ensures
            r == self.value(),
    {
        self.inner
    }
}

/// A counter whose every operation completes in one step.
pub struct WaitFreeCounter {
    value: usize,
}

impl WaitFreeCounter {
    /// The counter's value.
    pub closed spec fn value(&self) -> usize {
        self.value
    }

    /// A counter holding `init`.
    pub fn new(init: usize) -> (r: Self)
        ensures
            r.value() == init,
    {
        WaitFreeCounter { value: init }
    }

    /// Adds `delta`, wrapping, and returns the value before.
    pub fn fetch_add(&mut self, delta: usize) -> (r: usize)
        ensures
            r == old(self).value(),
            final(self).value() == wrap_add(old(self).value() as int, delta as int),
    {
        let r = self.value;
        self.value = add_wrapping(self.value, delta);
        r
    }

    /// The current value.
    pub fn load(&self) -> (r: usize)
        ensures
            r == self.value(),
    {
        self.value
    }
}

/// One register of a snapshot object: a value and the number of writes it
/// has seen.
#[derive(Clone, Copy)]
pub struct SnapshotRegister {
    pub value: usize,
    pub seq: usize,
}

/// `n` registers read together by a double collect: two reads of every
/// register whose write counts agree give values that all held at once.
pub struct AtomicSnapshot {
    registers: Vec<SnapshotRegister>,
}

/// Whether two collects saw the same write count in every register.
pub open spec fn seqs_agree(a: Seq<SnapshotRegister>, b: Seq<SnapshotRegister>) -> bool {
    a.len() == b.len() && forall|i: int| 0 <= i < a.len() ==> (#[trigger] a[i]).seq == b[i].seq
}

impl AtomicSnapshot {
    /// The registers' values.
    pub closed spec fn values(&self) -> Seq<usize> {
        self.registers@.map_values(|r: SnapshotRegister| r.value)
    }

    /// The registers' write counts.
    pub closed spec fn seqs(&self) -> Seq<usize> {
        self.registers@.map_values(|r: SnapshotRegister| r.seq)
    }

    /// Registers holding `values`, none written yet.
    pub fn new(values: &[usize]) -> (r: Self)
        ensures
            r.values() == values@,
            r.seqs() == Seq::new(values@.len(), |i: int| 0usize),
    {
        let mut registers: Vec<SnapshotRegister> = Vec::new();
        let mut i: usize = 0;
        while i < values.len()
            invariant
                i <= values@.len(),
                registers@.len() == i,
                forall|k: int|
                    0 <= k < i ==> (#[trigger] registers@[k]).value == values@[k]
                        && registers@[k].seq == 0,
            decreases values@.len() - i,
        {
            registers.push(SnapshotRegister { value: values[i], seq: 0 });
            i = i + 1;
        }
        let r = AtomicSnapshot { registers };
        assert(r.values() =~= values@);
        assert(r.seqs() =~= Seq::new(values@.len(), |i: int| 0usize));
        r
    }

    /// Writes `new_value` to register `index` and counts the write.
    pub fn update(&mut self, index: usize, new_value: usize)
        requires
            index < old(self).values().len(),
        ensures
            final(self).values() == old(self).values().update(index as int, new_value),
            final(self).seqs() == old(self).seqs().update(
                index as int,
                wrap_add(old(self).seqs()[index as int] as int, 1),
            ),
    {
        let seq = add_wrapping(self.registers[index].seq, 1);
        self.registers.set(index, SnapshotRegister { value: new_value, seq });
        assert(self.values() =~= old(self).values().update(index as int, new_value));
        assert(self.seqs() =~= old(self).seqs().update(
            index as int,
            wrap_add(old(self).seqs()[index as int] as int, 1),
        ));
    }

    fn collect(&self) -> (r: Vec<SnapshotRegister>)
        ensures
            r@ == self.registers@,
    {
        let mut r: Vec<SnapshotRegister> = Vec::new();
        let mut i: usize = 0;
        while i < self.registers.len()
            invariant
                i <= self.registers@.len(),
                r@ == self.registers@.subrange(0, i as int),
            decreases self.registers@.len() - i,
        {
            r.push(self.registers[i]);
            i = i + 1;
            assert(r@ =~= self.registers@.subrange(0, i as int));
        }
        assert(r@ =~= self.registers@);
        r
    }

    /// Whether two collects agree on every write count.
    pub fn same_seqs(a: &Vec<SnapshotRegister>, b: &Vec<SnapshotRegister>) -> (r: bool)
        ensures
            r == seqs_agree(a@, b@),
    {
        if a.len() != b.len() {
            return false;
        }
        let mut i: usize = 0;
        while i < a.len()
            invariant
                a@.len() == b@.len(),
                i <= a@.len(),
                forall|k: int| 0 <= k < i ==> (#[trigger] a@[k]).seq == b@[k].seq,
            decreases a@.len() - i,
        {
            if a[i].seq != b[i].seq {
                return false;
            }
            i = i + 1;
        }
        true
    }

    /// A consistent view of all registers: collects twice until both
    /// collects agree on every write count, then returns the values of the
    /// first.
    pub fn scan(&self) -> (r: Vec<usize>)
        ensures
            r@ == self.values(),
    {
        loop
            decreases 1nat,
        {
            let first = self.collect();
            let second = self.collect();
            if Self::same_seqs(&first, &second) {
                let mut out: Vec<usize> = Vec::new();
                let mut i: usize = 0;
                while i < first.len()
                    invariant
                        first@ == self.registers@,
                        i <= first@.len(),
                        out@ == self.values().subrange(0, i as int),
                    decreases first@.len() - i,
                {
                    out.push(first[i].value);
                    i = i + 1;
                    assert(out@ =~= self.values().subrange(0, i as int));
                }
                assert(out@ =~= self.values());
                return out;
            }
            assert(seqs_agree(first@, second@));
        }
    }

    /// The number of registers.
    pub fn len(&self) -> (r: usize)
        ensures
            r == self.values().len(),
    {
        self.registers.len()
    }
}

} // verus!
