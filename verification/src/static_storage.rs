//! The multi-resource reader/writer arbitration protocol: per-storage loan
//! accounting, the registry arbitrating whole request sets atomically, guards
//! recording taken loans, and the invariant that a writer never coexists with
//! any other holder.

use vstd::prelude::*;

use crate::system::Permisions;

verus! {

/// The errors the access-accounting protocol can signal. Every one of them
/// marks a protocol bypass or a broken invariant, never an expected runtime
/// state.
#[derive(Clone, Copy, PartialEq, Eq, Structural, Debug)]
pub enum Error {
    /// Read and write loans to the same storage were observed at once.
    AliasingDetected,
    /// A release was requested that the storage had no record of.
    UnacountedGuard,
    /// A read loan was requested while a write loan was outstanding.
    IllegalReadGuardAcquire,
    /// A write loan was requested while a read or a write loan was
    /// outstanding.
    IllegalWriteGuardAcquire,
}

impl Error {
    /// A sentence naming the violated invariant, for diagnostics.
    pub fn message(&self) -> (r: &'static str)
        ensures
            r@ == match *self {
                Error::AliasingDetected => "read and write loans to the same storage were detected"@,
                Error::UnacountedGuard => "released a guard the storage had no record of"@,
                Error::IllegalReadGuardAcquire => "acquired a read guard while a write guard exists"@,
                Error::IllegalWriteGuardAcquire => "acquired a write guard while a read or a write guard exists"@,
            },
    {
        match *self {
            Error::AliasingDetected => "read and write loans to the same storage were detected",
            Error::UnacountedGuard => "released a guard the storage had no record of",
            Error::IllegalReadGuardAcquire => "acquired a read guard while a write guard exists",
            Error::IllegalWriteGuardAcquire => "acquired a write guard while a read or a write guard exists",
        }
    }
}

/// The loan accounting of one storage: how many readers and how many writers
/// currently hold it.
#[derive(Clone, Copy, PartialEq, Eq, Structural, Debug)]
pub struct AccessState {
    pub readers: u64,
    pub writers: u64,
}

impl AccessState {
    /// The protocol invariant: at most one writer, and never a writer
    /// together with a reader.
    pub open spec fn wf(&self) -> bool {
        self.writers <= 1 && (self.writers == 1 ==> self.readers == 0)
    }

    /// A read loan can be taken: no writer holds the storage. The bound on
    /// the reader count only keeps the counter within its machine width.
    pub open spec fn read_available(&self) -> bool {
        self.writers == 0 && self.readers < u64::MAX
    }

    /// A write loan can be taken: no reader and no writer holds the storage.
    pub open spec fn write_available(&self) -> bool {
        self.writers == 0 && self.readers == 0
    }

    /// A storage nobody holds.
    pub fn new() -> (r: Self)
        ensures
            r == (AccessState { readers: 0, writers: 0 }),
    {
        AccessState { readers: 0, writers: 0 }
    }
}

/// Per-storage loan accounting. Each operation performs one non-blocking
/// state transition of the `(readers, writers)` pair and reports exactly the
/// violation it observed, if any. The multi-resource acquisition protocol is
/// arbitrated over these transitions.
pub trait StaticStorage: Sized {
    /// How many read loans are outstanding.
    spec fn readers(&self) -> u64;

    /// How many write loans are outstanding.
    spec fn writers(&self) -> u64;

    /// Takes one read loan. Succeeds exactly when no writer is out,
    /// incrementing the reader count.
    fn read(&mut self) -> (r: Result<(), Error>)
        requires
            old(self).readers() < u64::MAX,
        ensures
            match r {
                Ok(()) => old(self).writers() == 0
                    && final(self).readers() == old(self).readers() + 1
                    && final(self).writers() == 0,
                Err(e) => e == Error::IllegalReadGuardAcquire
                    && old(self).writers() > 0
                    && *final(self) == *old(self),
            },
    ;

    /// Takes the write loan. Succeeds exactly when nobody holds the storage,
    /// setting the writer count to one.
    fn write(&mut self) -> (r: Result<(), Error>)
        ensures
            match r {
                Ok(()) => old(self).readers() == 0
                    && old(self).writers() == 0
                    && final(self).readers() == 0
                    && final(self).writers() == 1,
                Err(e) => e == Error::IllegalWriteGuardAcquire
                    && (old(self).readers() > 0 || old(self).writers() > 0)
                    && *final(self) == *old(self),
            },
    ;

    /// Returns one read loan. Succeeds exactly when a reader and no writer is
    /// out, decrementing the reader count; otherwise reports whether the
    /// release was unaccounted for or aliasing was observed.
    fn release_read_guard(&mut self) -> (r: Result<(), Error>)
        ensures
            match r {
                Ok(()) => old(self).readers() > 0
                    && old(self).writers() == 0
                    && final(self).readers() == old(self).readers() - 1
                    && final(self).writers() == 0,
                Err(e) => *final(self) == *old(self) && if old(self).writers() == 0 {
                    e == Error::UnacountedGuard && old(self).readers() == 0
                } else {
                    e == Error::AliasingDetected
                },
            },
    ;

    /// Returns the write loan. Succeeds exactly when exactly one writer and
    /// no reader is out, clearing the writer count; otherwise reports whether
    /// the release was unaccounted for or aliasing was observed.
    fn release_write_guard(&mut self) -> (r: Result<(), Error>)
        ensures
            match r {
                Ok(()) => old(self).readers() == 0
                    && old(self).writers() == 1
                    && final(self).readers() == 0
                    && final(self).writers() == 0,
                Err(e) => *final(self) == *old(self) && !(old(self).readers() == 0 && old(
                    self,
                ).writers() == 1) && if old(self).readers() == 0 && old(self).writers() == 0 {
                    e == Error::UnacountedGuard
                } else {
                    e == Error::AliasingDetected
                },
            },
    ;

    /// Reports the outstanding loans as a `(readers, writers)` pair.
    fn get_access(&self) -> (r: (u64, u64))
        ensures
            r.0 == self.readers() && r.1 == self.writers(),
    ;
}

impl StaticStorage for AccessState {
    open spec fn readers(&self) -> u64 {
        self.readers
    }

    open spec fn writers(&self) -> u64 {
        self.writers
    }

    fn read(&mut self) -> (r: Result<(), Error>) {
        if self.writers == 0 {
            self.readers = self.readers + 1;
            Ok(())
        } else {
            Err(Error::IllegalReadGuardAcquire)
        }
    }

    fn write(&mut self) -> (r: Result<(), Error>) {
        if self.readers == 0 && self.writers == 0 {
            self.writers = 1;
            Ok(())
        } else {
            Err(Error::IllegalWriteGuardAcquire)
        }
    }

    fn release_read_guard(&mut self) -> (r: Result<(), Error>) {
        if self.writers > 0 {
            Err(Error::AliasingDetected)
        } else if self.readers == 0 {
            Err(Error::UnacountedGuard)
        } else {
            self.readers = self.readers - 1;
            Ok(())
        }
    }

    fn release_write_guard(&mut self) -> (r: Result<(), Error>) {
        if self.readers == 0 && self.writers == 1 {
            self.writers = 0;
            Ok(())
        } else if self.readers == 0 && self.writers == 0 {
            Err(Error::UnacountedGuard)
        } else {
            Err(Error::AliasingDetected)
        }
    }

    fn get_access(&self) -> (r: (u64, u64)) {
        (self.readers, self.writers)
    }
}

/// The result of one acquisition step on one storage: the state after taking
/// the requested loan, or nothing when the storage is unavailable in that
/// mode.
pub open spec fn acquire_one(s: AccessState, m: Permisions) -> Option<AccessState> {
    match m {
        Permisions::Read => if s.read_available() {
            Some(AccessState { readers: (s.readers + 1) as u64, writers: s.writers })
        } else {
            None
        },
        Permisions::Write => if s.write_available() {
            Some(AccessState { readers: s.readers, writers: 1 })
        } else {
            None
        },
    }
}

/// The all-or-nothing evaluation of a full request set against a table of
/// access states: the table with every requested loan taken, or nothing when
/// some request in the set is unavailable. Requests are evaluated in order
/// against the evolving table, so a set that asks twice for the same writer
/// is never available.
pub open spec fn apply_requests(
    states: Seq<AccessState>,
    reqs: Seq<(usize, Permisions)>,
) -> Option<Seq<AccessState>>
    decreases reqs.len(),
{
    if reqs.len() == 0 {
        Some(states)
    } else if reqs[0].0 < states.len() {
        match acquire_one(states[reqs[0].0 as int], reqs[0].1) {
            Some(s2) => apply_requests(states.update(reqs[0].0 as int, s2), reqs.drop_first()),
            None => None,
        }
    } else {
        None
    }
}

/// The result of returning one loan to one storage: the state with the loan
/// retracted, or the exact violation the accounting observed.
pub open spec fn release_one(s: AccessState, m: Permisions) -> Result<AccessState, Error> {
    match m {
        Permisions::Read => if s.writers > 0 {
            Err(Error::AliasingDetected)
        } else if s.readers == 0 {
            Err(Error::UnacountedGuard)
        } else {
            Ok(AccessState { readers: (s.readers - 1) as u64, writers: s.writers })
        },
        Permisions::Write => if s.readers == 0 && s.writers == 1 {
            Ok(AccessState { readers: 0, writers: 0 })
        } else if s.readers == 0 && s.writers == 0 {
            Err(Error::UnacountedGuard)
        } else {
            Err(Error::AliasingDetected)
        },
    }
}

/// The table of access states after returning the given loans in order,
/// stopping at the first violation. A loan naming an unregistered storage is
/// a violation.
pub open spec fn release_upto(
    states: Seq<AccessState>,
    held: Seq<(usize, Permisions)>,
) -> Seq<AccessState>
    decreases held.len(),
{
    if held.len() == 0 {
        states
    } else if held[0].0 < states.len() {
        match release_one(states[held[0].0 as int], held[0].1) {
            Ok(s2) => release_upto(states.update(held[0].0 as int, s2), held.drop_first()),
            Err(_) => states,
        }
    } else {
        states
    }
}

/// The first violation observed while returning the given loans in order, if
/// any. A loan naming an unregistered storage counts as a release the table
/// has no record of.
pub open spec fn first_release_error(
    states: Seq<AccessState>,
    held: Seq<(usize, Permisions)>,
) -> Option<Error>
    decreases held.len(),
{
    if held.len() == 0 {
        None
    } else if held[0].0 < states.len() {
        match release_one(states[held[0].0 as int], held[0].1) {
            Ok(s2) => first_release_error(states.update(held[0].0 as int, s2), held.drop_first()),
            Err(e) => Some(e),
        }
    } else {
        Some(Error::UnacountedGuard)
    }
}

/// Every storage in the table satisfies the access-state invariant.
pub open spec fn all_wf(states: Seq<AccessState>) -> bool {
    forall|i: int| 0 <= i < states.len() ==> (#[trigger] states[i]).wf()
}

/// A successfully and atomically acquired set of `(storage, mode)` loans.
/// Disposal hands the guard back to `Registry::release`, which retracts every
/// loan it records.
pub struct Guard {
    held: Vec<(usize, Permisions)>,
}

impl Guard {
    /// The loans this guard records, in acquisition order.
    pub closed spec fn held_seq(&self) -> Seq<(usize, Permisions)> {
        self.held@
    }

    /// Creates a guard recording the given loans.
    pub fn new(held: Vec<(usize, Permisions)>) -> (g: Guard)
        ensures
            g.held_seq() == held@,
    {
        Guard { held }
    }

    /// The loans this guard protects, in acquisition order.
    pub fn get(&self) -> (r: &Vec<(usize, Permisions)>)
        ensures
            r@ == self.held_seq(),
    {
        &self.held
    }
}

/// Splitting a request set at position `i` splits its evaluation: the whole
/// set is available exactly when the first `i` requests are and the rest are
/// available against the table they produce.
pub proof fn lemma_apply_split(
    states: Seq<AccessState>,
    reqs: Seq<(usize, Permisions)>,
    i: int,
)
    requires
        0 <= i <= reqs.len(),
    ensures
        apply_requests(states, reqs) == match apply_requests(states, reqs.take(i)) {
            Some(t) => apply_requests(t, reqs.skip(i)),
            None => None,
        },
    decreases i,
{
    if i == 0 {
        assert(reqs.take(0) =~= Seq::<(usize, Permisions)>::empty());
        assert(reqs.skip(0) =~= reqs);
    } else {
        assert(reqs.take(i)[0] == reqs[0]);
        if reqs[0].0 < states.len() && acquire_one(states[reqs[0].0 as int], reqs[0].1).is_some() {
            let s2 = acquire_one(states[reqs[0].0 as int], reqs[0].1).unwrap();
            let states2 = states.update(reqs[0].0 as int, s2);
            lemma_apply_split(states2, reqs.drop_first(), i - 1);
            assert(reqs.take(i).drop_first() =~= reqs.drop_first().take(i - 1));
            assert(reqs.skip(i) =~= reqs.drop_first().skip(i - 1));
        }
    }
}

/// When a request set as a whole is available, each single step along the way
/// is: the storage it names is registered and available in the requested
/// mode.
pub proof fn lemma_apply_step_available(
    states: Seq<AccessState>,
    reqs: Seq<(usize, Permisions)>,
    i: int,
)
    requires
        0 <= i < reqs.len(),
        apply_requests(states, reqs).is_some(),
        apply_requests(states, reqs.take(i)).is_some(),
    ensures
        reqs[i].0 < apply_requests(states, reqs.take(i)).unwrap().len(),
        acquire_one(
            apply_requests(states, reqs.take(i)).unwrap()[reqs[i].0 as int],
            reqs[i].1,
        ).is_some(),
{
    lemma_apply_split(states, reqs, i);
    let t = apply_requests(states, reqs.take(i)).unwrap();
    let rest = reqs.skip(i);
    assert(rest[0] == reqs[i]);
    assert(apply_requests(t, rest).is_some());
}

/// Taking one more available step extends the evaluation of a request-set
/// prefix by one.
pub proof fn lemma_apply_snoc(states: Seq<AccessState>, reqs: Seq<(usize, Permisions)>, i: int)
    requires
        0 <= i < reqs.len(),
        apply_requests(states, reqs.take(i)).is_some(),
        reqs[i].0 < apply_requests(states, reqs.take(i)).unwrap().len(),
        acquire_one(
            apply_requests(states, reqs.take(i)).unwrap()[reqs[i].0 as int],
            reqs[i].1,
        ).is_some(),
    ensures
        apply_requests(states, reqs.take(i + 1)) == Some(
            apply_requests(states, reqs.take(i)).unwrap().update(
                reqs[i].0 as int,
                acquire_one(
                    apply_requests(states, reqs.take(i)).unwrap()[reqs[i].0 as int],
                    reqs[i].1,
                ).unwrap(),
            ),
        ),
{
    lemma_apply_split(states, reqs.take(i + 1), i);
    assert(reqs.take(i + 1).take(i) =~= reqs.take(i));
    let t = apply_requests(states, reqs.take(i)).unwrap();
    let one = reqs.take(i + 1).skip(i);
    assert(one.len() == 1);
    assert(one[0] == reqs[i]);
    let u = t.update(reqs[i].0 as int, acquire_one(t[reqs[i].0 as int], reqs[i].1).unwrap());
    assert(one.drop_first() =~= Seq::<(usize, Permisions)>::empty());
    assert(apply_requests(u, one.drop_first()) == Some(u));
    assert(apply_requests(t, one) == Some(u));
}

/// A single unavailable step makes the whole request set unavailable.
pub proof fn lemma_apply_fail(states: Seq<AccessState>, reqs: Seq<(usize, Permisions)>, i: int)
    requires
        0 <= i < reqs.len(),
        apply_requests(states, reqs.take(i)).is_some(),
        reqs[i].0 < apply_requests(states, reqs.take(i)).unwrap().len() ==> acquire_one(
            apply_requests(states, reqs.take(i)).unwrap()[reqs[i].0 as int],
            reqs[i].1,
        ) is None,
    ensures
        apply_requests(states, reqs) is None,
{
    lemma_apply_split(states, reqs, i);
    let t = apply_requests(states, reqs.take(i)).unwrap();
    let rest = reqs.skip(i);
    assert(rest[0] == reqs[i]);
    assert(apply_requests(t, rest) is None);
}

/// An available request set leaves the number of registered storages
/// unchanged.
pub proof fn lemma_apply_len(states: Seq<AccessState>, reqs: Seq<(usize, Permisions)>)
    requires
        apply_requests(states, reqs).is_some(),
    ensures
        apply_requests(states, reqs).unwrap().len() == states.len(),
    decreases reqs.len(),
{
    if reqs.len() > 0 {
        let s2 = acquire_one(states[reqs[0].0 as int], reqs[0].1).unwrap();
        lemma_apply_len(states.update(reqs[0].0 as int, s2), reqs.drop_first());
    }
}

/// Splitting a held-loan list at position `i` splits its release, as long as
/// no violation occurs among the first `i` loans.
pub proof fn lemma_release_split(
    states: Seq<AccessState>,
    held: Seq<(usize, Permisions)>,
    i: int,
)
    requires
        0 <= i <= held.len(),
        first_release_error(states, held.take(i)) is None,
    ensures
        release_upto(states, held) == release_upto(release_upto(states, held.take(i)), held.skip(i)),
        first_release_error(states, held) == first_release_error(
            release_upto(states, held.take(i)),
            held.skip(i),
        ),
    decreases i,
{
    if i == 0 {
        assert(held.take(0) =~= Seq::<(usize, Permisions)>::empty());
        assert(held.skip(0) =~= held);
    } else {
        assert(held.take(i)[0] == held[0]);
        assert(held[0].0 < states.len());
        let s2 = release_one(states[held[0].0 as int], held[0].1).unwrap();
        let states2 = states.update(held[0].0 as int, s2);
        assert(held.take(i).drop_first() =~= held.drop_first().take(i - 1));
        assert(held.skip(i) =~= held.drop_first().skip(i - 1));
        lemma_release_split(states2, held.drop_first(), i - 1);
    }
}

/// Releasing one more loan without a violation extends the released prefix by
/// one.
pub proof fn lemma_release_snoc(states: Seq<AccessState>, held: Seq<(usize, Permisions)>, i: int)
    requires
        0 <= i < held.len(),
        first_release_error(states, held.take(i)) is None,
        held[i].0 < release_upto(states, held.take(i)).len(),
        release_one(release_upto(states, held.take(i))[held[i].0 as int], held[i].1) is Ok,
    ensures
        first_release_error(states, held.take(i + 1)) is None,
        release_upto(states, held.take(i + 1)) == release_upto(states, held.take(i)).update(
            held[i].0 as int,
            release_one(
                release_upto(states, held.take(i))[held[i].0 as int],
                held[i].1,
            ).unwrap(),
        ),
{
    assert(held.take(i + 1).take(i) =~= held.take(i));
    let t = release_upto(states, held.take(i));
    let one = held.take(i + 1).skip(i);
    assert(one.len() == 1);
    assert(one[0] == held[i]);
    let u = t.update(held[i].0 as int, release_one(t[held[i].0 as int], held[i].1).unwrap());
    assert(one.drop_first() =~= Seq::<(usize, Permisions)>::empty());
    assert(release_upto(u, one.drop_first()) == u);
    assert(first_release_error(u, one.drop_first()) is None);
    assert(release_upto(t, one) == u);
    assert(first_release_error(t, one) is None);
    lemma_release_split(states, held.take(i + 1), i);
}

/// A violation at one step is the first violation of the whole list, and
/// stops the release there.
pub proof fn lemma_release_fail(
    states: Seq<AccessState>,
    held: Seq<(usize, Permisions)>,
    i: int,
    e: Error,
)
    requires
        0 <= i < held.len(),
        first_release_error(states, held.take(i)) is None,
        if held[i].0 < release_upto(states, held.take(i)).len() {
            release_one(release_upto(states, held.take(i))[held[i].0 as int], held[i].1) == Err::<
                AccessState,
                Error,
            >(e)
        } else {
            e == Error::UnacountedGuard
        },
    ensures
        first_release_error(states, held) == Some(e),
        release_upto(states, held) == release_upto(states, held.take(i)),
{
    lemma_release_split(states, held, i);
    let t = release_upto(states, held.take(i));
    let rest = held.skip(i);
    assert(rest[0] == held[i]);
    assert(first_release_error(t, rest) == Some(e));
    assert(release_upto(t, rest) == t);
}

/// The process-wide registry of storage access states: one entry per
/// registered storage, indexed by the token `register` returned for it. All
/// multi-resource arbitration is decided against this single table, so one
/// critical section around its operations totally orders acquisition attempts
/// across every storage.
pub struct Registry {
    states: Vec<AccessState>,
}

impl Registry {
    /// The access accounting of every registered storage, by token.
    pub closed spec fn accesses(&self) -> Seq<AccessState> {
        self.states@
    }

    /// Every registered storage satisfies the access-state invariant.
    pub open spec fn wf(&self) -> bool {
        all_wf(self.accesses())
    }

    /// An empty registry.
    pub fn new() -> (r: Registry)
        ensures
            r.accesses().len() == 0,
    {
        Registry { states: Vec::new() }
    }

    /// Registers one more storage, returning its token. The new storage
    /// starts with no loans outstanding.
    pub fn register(&mut self) -> (id: usize)
        ensures
            id == old(self).accesses().len(),
            final(self).accesses() == old(self).accesses().push(
                AccessState { readers: 0, writers: 0 },
            ),
    {
        let id = self.states.len();
        self.states.push(AccessState { readers: 0, writers: 0 });
        id
    }

    /// How many storages are registered.
    pub fn len(&self) -> (n: usize)
        ensures
            n == self.accesses().len(),
    {
        self.states.len()
    }

    /// Registers storages until at least `n` exist; each new one starts with
    /// no loans outstanding.
    pub fn ensure_len(&mut self, n: usize)
        ensures
            final(self).accesses().len() == if old(self).accesses().len() >= n {
                old(self).accesses().len() as int
            } else {
                n as int
            },
            forall|i: int|
                0 <= i < old(self).accesses().len() ==> final(self).accesses()[i]
                    == old(self).accesses()[i],
            forall|i: int|
                old(self).accesses().len() <= i < final(self).accesses().len()
                    ==> final(self).accesses()[i] == (AccessState { readers: 0, writers: 0 }),
    {
        let ghost orig = self.states@;
        while self.states.len() < n
            invariant
                orig.len() <= self.states@.len(),
                self.states@.len() <= orig.len() || self.states@.len() <= n,
                forall|i: int| 0 <= i < orig.len() ==> self.states@[i] == orig[i],
                forall|i: int|
                    orig.len() <= i < self.states@.len() ==> self.states@[i] == (AccessState {
                        readers: 0,
                        writers: 0,
                    }),
            decreases n - self.states@.len(),
        {
            self.states.push(AccessState { readers: 0, writers: 0 });
        }
    }

    /// The outstanding loans of one storage, as a `(readers, writers)` pair.
    pub fn get_access(&self, id: usize) -> (r: (u64, u64))
        requires
            id < self.accesses().len(),
        ensures
            r.0 == self.accesses()[id as int].readers,
            r.1 == self.accesses()[id as int].writers,
    {
        let s = &self.states[id];
        (s.readers, s.writers)
    }

    /// Decides whether the full request set is available right now, without
    /// taking any loan.
    pub fn can_acquire(&self, reqs: &Vec<(usize, Permisions)>) -> (r: bool)
        ensures
            r == apply_requests(self.accesses(), reqs@).is_some(),
    {
        let ghost orig = self.states@;
        let mut scratch: Vec<AccessState> = Vec::new();
        let n = self.states.len();
        let mut k: usize = 0;
        while k < n
            invariant
                k <= n,
                n == self.states@.len(),
                scratch@ == self.states@.take(k as int),
            decreases n - k,
        {
            scratch.push(self.states[k]);
            k = k + 1;
        }
        assert(scratch@ =~= orig);
        let mut i: usize = 0;
        while i < reqs.len()
            invariant
                i <= reqs@.len(),
                orig == self.states@,
                apply_requests(orig, reqs@.take(i as int)) == Some(scratch@),
            decreases reqs@.len() - i,
        {
            let (idx, m) = reqs[i];
            let available = if idx < scratch.len() {
                let s = scratch[idx];
                match m {
                    Permisions::Read => s.writers == 0 && s.readers < u64::MAX,
                    Permisions::Write => s.writers == 0 && s.readers == 0,
                }
            } else {
                false
            };
            if !available {
                proof {
                    lemma_apply_fail(orig, reqs@, i as int);
                }
                return false;
            }
            let s = scratch[idx];
            let s2 = match m {
                Permisions::Read => AccessState { readers: s.readers + 1, writers: s.writers },
                Permisions::Write => AccessState { readers: s.readers, writers: 1 },
            };
            proof {
                assert(acquire_one(scratch@[idx as int], m) == Some(s2));
                lemma_apply_snoc(orig, reqs@, i as int);
            }
            scratch[idx] = s2;
            i = i + 1;
        }
        proof {
            assert(reqs@.take(reqs@.len() as int) =~= reqs@);
        }
        true
    }

    /// One atomic evaluation of a full request set, the heart of the
    /// acquisition protocol. Either every requested loan is taken and a guard
    /// recording all of them is returned, or no loan at all is taken and the
    /// caller gets nothing back and may wait for a release before retrying
    /// the entire set from scratch. No partial acquisition is ever retained,
    /// which is what keeps callers wanting overlapping sets from
    /// deadlocking.
    pub fn try_acquire(&mut self, reqs: &Vec<(usize, Permisions)>) -> (r: Option<Guard>)
        ensures
            match r {
                Some(g) => apply_requests(old(self).accesses(), reqs@) == Some(
                    final(self).accesses(),
                ) && g.held_seq() == reqs@,
                None => *final(self) == *old(self) && apply_requests(
                    old(self).accesses(),
                    reqs@,
                ) is None,
            },
            old(self).wf() ==> final(self).wf(),
    {
        if !self.can_acquire(reqs) {
            return None;
        }
        let ghost orig = self.states@;
        let mut held: Vec<(usize, Permisions)> = Vec::new();
        let mut i: usize = 0;
        while i < reqs.len()
            invariant
                i <= reqs@.len(),
                apply_requests(orig, reqs@).is_some(),
                apply_requests(orig, reqs@.take(i as int)) == Some(self.states@),
                held@ == reqs@.take(i as int),
            decreases reqs@.len() - i,
        {
            proof {
                lemma_apply_step_available(orig, reqs@, i as int);
            }
            let (idx, m) = reqs[i];
            let ghost before = self.states@;
            let mut s = self.states[idx];
            let res = match m {
                Permisions::Read => s.read(),
                Permisions::Write => s.write(),
            };
            proof {
                assert(res is Ok);
                assert(Some(s) == acquire_one(before[idx as int], m));
                lemma_apply_snoc(orig, reqs@, i as int);
            }
            self.states[idx] = s;
            held.push((idx, m));
            proof {
                assert(held@ =~= reqs@.take(i + 1));
            }
            i = i + 1;
        }
        proof {
            assert(reqs@.take(reqs@.len() as int) =~= reqs@);
            if all_wf(orig) {
                lemma_acquire_preserves_invariant(orig, reqs@);
            }
        }
        Some(Guard::new(held))
    }

    /// Disposes a guard: returns every loan it records, in order, stopping at
    /// the first accounting violation and reporting it. A violation can only
    /// come from a guard the registry never issued or from accounting already
    /// broken by one.
    pub fn release(&mut self, guard: Guard) -> (r: Result<(), Error>)
        ensures
            final(self).accesses() == release_upto(old(self).accesses(), guard.held_seq()),
            r == match first_release_error(old(self).accesses(), guard.held_seq()) {
                None => Ok::<(), Error>(()),
                Some(e) => Err::<(), Error>(e),
            },
            old(self).wf() ==> final(self).wf(),
    {
        let held = guard.held;
        let ghost horig = held@;
        let ghost orig = self.states@;
        let mut i: usize = 0;
        while i < held.len()
            invariant
                i <= held@.len(),
                held@ == horig,
                horig == guard.held_seq(),
                orig == old(self).accesses(),
                first_release_error(orig, horig.take(i as int)) is None,
                release_upto(orig, horig.take(i as int)) == self.states@,
            decreases held@.len() - i,
        {
            let (idx, m) = held[i];
            if idx >= self.states.len() {
                proof {
                    lemma_release_fail(orig, horig, i as int, Error::UnacountedGuard);
                    if all_wf(orig) {
                        lemma_release_preserves_invariant(orig, horig);
                    }
                }
                return Err(Error::UnacountedGuard);
            }
            let ghost before = self.states@;
            let mut s = self.states[idx];
            let res = match m {
                Permisions::Read => s.release_read_guard(),
                Permisions::Write => s.release_write_guard(),
            };
            match res {
                Ok(()) => {
                    proof {
                        assert(Ok::<AccessState, Error>(s) == release_one(before[idx as int], m));
                        lemma_release_snoc(orig, horig, i as int);
                    }
                    self.states[idx] = s;
                },
                Err(e) => {
                    proof {
                        assert(Err::<AccessState, Error>(e) == release_one(before[idx as int], m));
                        lemma_release_fail(orig, horig, i as int, e);
                        if all_wf(orig) {
                            lemma_release_preserves_invariant(orig, horig);
                        }
                    }
                    return Err(e);
                },
            }
            i = i + 1;
        }
        proof {
            assert(horig.take(horig.len() as int) =~= horig);
            if all_wf(orig) {
                lemma_release_preserves_invariant(orig, horig);
            }
        }
        Ok(())
    }
}

/// The process-wide table mapping a type token to the storage index
/// registered for it, exactly once: the first lookup of a token registers a
/// fresh index, every later lookup of the same token returns that same index
/// and registers nothing. Single-type storage lives process-wide, so a type's
/// index, once created, never changes.
pub struct TypeRegistry {
    keys: Vec<u64>,
}

impl TypeRegistry {
    /// The registered type tokens, by storage index.
    pub closed spec fn keys_seq(&self) -> Seq<u64> {
        self.keys@
    }

    /// An empty type registry.
    pub fn new() -> (r: TypeRegistry)
        ensures
            r.keys_seq().len() == 0,
    {
        TypeRegistry { keys: Vec::new() }
    }

    /// The storage index of a type token, registering it on first sight. The
    /// result is the first position carrying the token; a token seen before
    /// leaves the registry unchanged, an unseen one is appended.
    pub fn token_for(&mut self, key: u64) -> (r: usize)
        ensures
            r < final(self).keys_seq().len(),
            final(self).keys_seq()[r as int] == key,
            forall|j: int| 0 <= j < r ==> final(self).keys_seq()[j] != key,
            if old(self).keys_seq().contains(key) {
                final(self).keys_seq() == old(self).keys_seq()
            } else {
                final(self).keys_seq() == old(self).keys_seq().push(key)
                    && r == old(self).keys_seq().len()
            },
    {
        let n = self.keys.len();
        let mut i: usize = 0;
        while i < n
            invariant
                i <= n,
                n == self.keys@.len(),
                forall|j: int| 0 <= j < i ==> self.keys@[j] != key,
            decreases n - i,
        {
            if self.keys[i] == key {
                return i;
            }
            i = i + 1;
        }
        proof {
            assert(!self.keys@.contains(key));
        }
        self.keys.push(key);
        n
    }
}

/// Law: the exactly-once contract of type registration. Any two lookups that
/// both found their token at the first position carrying it agree whenever
/// the tokens agree, so concurrent first callers serialized through the
/// arbitration point observe one single storage index per type, never two.
pub proof fn lemma_token_unique(keys: Seq<u64>, r1: int, r2: int)
    requires
        0 <= r1 < keys.len(),
        0 <= r2 < keys.len(),
        keys[r1] == keys[r2],
        forall|j: int| 0 <= j < r1 ==> keys[j] != keys[r1],
        forall|j: int| 0 <= j < r2 ==> keys[j] != keys[r2],
    ensures
        r1 == r2,
{
}

/// Taking any loan leaves the storage in a state satisfying the access-state
/// invariant: a fresh reader presupposes no writer, and a fresh writer
/// presupposes nobody at all.
pub proof fn lemma_acquire_one_wf(s: AccessState, m: Permisions)
    requires
        acquire_one(s, m).is_some(),
    ensures
        acquire_one(s, m).unwrap().wf(),
{
}

/// Returning any loan without a violation leaves the storage in a state
/// satisfying the access-state invariant.
pub proof fn lemma_release_one_wf(s: AccessState, m: Permisions)
    requires
        release_one(s, m).is_ok(),
    ensures
        release_one(s, m).unwrap().wf(),
{
}

/// A fully taken request set preserves the access-state invariant on every
/// storage.
pub proof fn lemma_acquire_preserves_invariant(
    states: Seq<AccessState>,
    reqs: Seq<(usize, Permisions)>,
)
    requires
        all_wf(states),
        apply_requests(states, reqs).is_some(),
    ensures
        all_wf(apply_requests(states, reqs).unwrap()),
    decreases reqs.len(),
{
    if reqs.len() > 0 {
        let idx = reqs[0].0 as int;
        let s2 = acquire_one(states[idx], reqs[0].1).unwrap();
        lemma_acquire_one_wf(states[idx], reqs[0].1);
        let states2 = states.update(idx, s2);
        assert forall|i: int| 0 <= i < states2.len() implies (#[trigger] states2[i]).wf() by {
            if i != idx {
                assert(states2[i] == states[i]);
            }
        }
        lemma_acquire_preserves_invariant(states2, reqs.drop_first());
    }
}

/// A guard disposal, even one stopped by a violation, preserves the
/// access-state invariant on every storage.
pub proof fn lemma_release_preserves_invariant(
    states: Seq<AccessState>,
    held: Seq<(usize, Permisions)>,
)
    requires
        all_wf(states),
    ensures
        all_wf(release_upto(states, held)),
    decreases held.len(),
{
    if held.len() > 0 && held[0].0 < states.len() {
        let idx = held[0].0 as int;
        match release_one(states[idx], held[0].1) {
            Ok(s2) => {
                lemma_release_one_wf(states[idx], held[0].1);
                let states2 = states.update(idx, s2);
                assert forall|i: int| 0 <= i < states2.len() implies (#[trigger] states2[i]).wf()
                    by {
                    if i != idx {
                        assert(states2[i] == states[i]);
                    }
                }
                lemma_release_preserves_invariant(states2, held.drop_first());
            },
            Err(_) => {},
        }
    }
}

/// One atomic action at the arbitration point, as a concurrent caller
/// performs it inside the shared critical section: an acquisition attempt
/// over a full request set, or the disposal of a guard.
pub enum ProtocolOp {
    /// An `acquire` over this request set. When the set is unavailable the
    /// caller blocks and the table is untouched.
    Acquire(Seq<(usize, Permisions)>),
    /// A disposal returning these loans.
    Release(Seq<(usize, Permisions)>),
}

/// The table of access states after one atomic protocol action.
pub open spec fn protocol_step(states: Seq<AccessState>, op: ProtocolOp) -> Seq<AccessState> {
    match op {
        ProtocolOp::Acquire(reqs) => match apply_requests(states, reqs) {
            Some(s) => s,
            None => states,
        },
        ProtocolOp::Release(held) => release_upto(states, held),
    }
}

/// The table of access states after a sequence of atomic protocol actions.
pub open spec fn protocol_run(states: Seq<AccessState>, ops: Seq<ProtocolOp>) -> Seq<AccessState>
    decreases ops.len(),
{
    if ops.len() == 0 {
        states
    } else {
        protocol_run(protocol_step(states, ops[0]), ops.drop_first())
    }
}

/// Law: for any interleaving of acquisitions and disposals, across any number
/// of storages and any number of callers, every storage's access state
/// satisfies the invariant at every observable point: a write holder never
/// coexists with any read or write holder of the same storage. Each caller's
/// action is one atomic step at the shared arbitration point, so an
/// interleaving is a sequence of such steps.
pub proof fn lemma_interleaving_preserves_invariant(
    states: Seq<AccessState>,
    ops: Seq<ProtocolOp>,
)
    requires
        all_wf(states),
    ensures
        all_wf(protocol_run(states, ops)),
    decreases ops.len(),
{
    if ops.len() > 0 {
        match ops[0] {
            ProtocolOp::Acquire(reqs) => {
                if apply_requests(states, reqs).is_some() {
                    lemma_acquire_preserves_invariant(states, reqs);
                }
            },
            ProtocolOp::Release(held) => {
                lemma_release_preserves_invariant(states, held);
            },
        }
        lemma_interleaving_preserves_invariant(protocol_step(states, ops[0]), ops.drop_first());
    }
}

} // verus!
