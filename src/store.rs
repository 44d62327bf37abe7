use vstd::prelude::*;
use crate::error::StoreError;
use crate::index::{latest, strictly_ordered, versions_to_prune};
use crate::version::{id_chars, VersionStamp};

verus! {

/// How many versions a namespace keeps after a retention pass.
pub const KEEP: usize = 3;

/// What a write did.
#[derive(Debug, Clone, Copy, PartialEq, Eq, Structural)]
pub enum WriteOutcome {
    /// The payload was stored as a new version with this id.
    Created(VersionStamp),
    /// The payload equals the latest version's; nothing was stored.
    Deduplicated,
}

/// The decision for a write of `payload` at time `now`, given the ordered index of
/// the namespace and the payload of its latest version.
pub open spec fn plan_spec(
    versions: Seq<VersionStamp>,
    latest_payload: Option<Seq<u8>>,
    payload: Seq<u8>,
    now: VersionStamp,
) -> Result<WriteOutcome, StoreError> {
    if versions.len() == 0 {
        Ok(WriteOutcome::Created(now))
    } else if latest_payload == Some(payload) {
        Ok(WriteOutcome::Deduplicated)
    } else if versions.last().key() < now.key() {
        Ok(WriteOutcome::Created(now))
    } else {
        Err(StoreError::Conflict)
    }
}

/// Whether two payloads are byte for byte the same.
pub fn same_payload(a: &Vec<u8>, b: &Vec<u8>) -> (r: bool)
    ensures
        r == (a@ == b@),
{
    if a.len() != b.len() {
        return false;
    }
    let mut i: usize = 0;
    while i < a.len()
        invariant
            a@.len() == b@.len(),
            i <= a@.len(),
            forall|j: int| 0 <= j < i ==> a@[j] == b@[j],
        decreases a@.len() - i,
    {
        if a[i] != b[i] {
            return false;
        }
        i = i + 1;
    }
    assert(a@ =~= b@);
    true
}

/// Decides a write: the first version of a namespace is created; a payload equal
/// to the latest one is a no-op; otherwise `now` becomes the new id if it comes
/// after the latest id, and the write is refused as a conflict if it does not.
pub fn plan_write(
    versions: &Vec<VersionStamp>,
    latest_payload: Option<&Vec<u8>>,
    payload: &Vec<u8>,
    now: VersionStamp,
) -> (r: Result<WriteOutcome, StoreError>)
    requires
        strictly_ordered(versions@),
        now.fits(),
    ensures
        r == plan_spec(
            versions@,
            match latest_payload {
                Some(p) => Some(p@),
                None => None,
            },
            payload@,
            now,
        ),
{
    match latest(versions) {
        None => Ok(WriteOutcome::Created(now)),
        Some(last) => {
            let dup = match latest_payload {
                Some(p) => same_payload(p, payload),
                None => false,
            };
            if dup {
                Ok(WriteOutcome::Deduplicated)
            } else if last.is_before(&now) {
                Ok(WriteOutcome::Created(now))
            } else {
                Err(StoreError::Conflict)
            }
        },
    }
}

/// How many times a write whose fresh id does not come after the latest id is
/// tried again, after a pause, before the conflict is reported.
pub const COLLISION_RETRIES: usize = 3;

/// What the writer does once a write has been planned.
#[derive(Debug, Clone, Copy, PartialEq, Eq, Structural)]
pub enum WriteStep {
    /// The write is over with this outcome: store the payload first if it is
    /// `Created`.
    Done(WriteOutcome),
    /// Wait for the clock to move on, then plan the write again.
    Retry,
    /// The write fails with this error.
    Fail(StoreError),
}

/// The writer's next step after attempt number `attempt` (counting from zero)
/// was planned: a conflict is retried while fewer than `COLLISION_RETRIES`
/// retries were made; any other result ends the write.
pub fn after_plan(attempt: usize, planned: Result<WriteOutcome, StoreError>) -> (r: WriteStep)
    ensures
        r == (match planned {
            Ok(out) => WriteStep::Done(out),
            Err(StoreError::Conflict) => if attempt < COLLISION_RETRIES {
                WriteStep::Retry
            } else {
                WriteStep::Fail(StoreError::Conflict)
            },
            Err(e) => WriteStep::Fail(e),
        }),
{
    match planned {
        Ok(out) => WriteStep::Done(out),
        Err(StoreError::Conflict) => {
            if attempt < COLLISION_RETRIES {
                WriteStep::Retry
            } else {
                WriteStep::Fail(StoreError::Conflict)
            }
        },
        Err(e) => WriteStep::Fail(e),
    }
}

/// The id reported for a namespace that holds no version.
pub fn sentinel() -> (r: VersionStamp)
    ensures
        r == sentinel_spec(),
        r.fits(),
{
    VersionStamp { year: 1990, month: 1, day: 1, hour: 1, minute: 1, second: 1 }
}

pub open spec fn sentinel_spec() -> VersionStamp {
    VersionStamp { year: 1990, month: 1, day: 1, hour: 1, minute: 1, second: 1 }
}

/// The informational latest id of an ordered index, without the file suffix; the
/// sentinel id when the index is empty.
pub fn latest_info(versions: &Vec<VersionStamp>) -> (r: String)
    requires
        strictly_ordered(versions@),
    ensures
        versions@.len() == 0 ==> r@ == id_chars(sentinel_spec()),
        versions@.len() > 0 ==> r@ == id_chars(versions@.last()),
{
    match latest(versions) {
        Some(last) => last.id(),
        None => sentinel().id(),
    }
}

/// One stored version: its id and its payload.
pub struct StoredVersion {
    pub id: VersionStamp,
    pub payload: Vec<u8>,
}

/// The version history of one namespace, held in memory: the same rules as the
/// directory-backed store, with the versions as values.
pub struct History {
    versions: Vec<StoredVersion>,
}

pub open spec fn ids_of(h: Seq<(VersionStamp, Seq<u8>)>) -> Seq<VersionStamp> {
    h.map_values(|e: (VersionStamp, Seq<u8>)| e.0)
}

/// A retention pass over a history: the `KEEP` most recent versions stay.
pub open spec fn prune_spec(h: Seq<(VersionStamp, Seq<u8>)>) -> Seq<(VersionStamp, Seq<u8>)> {
    if h.len() > KEEP {
        h.skip(h.len() - KEEP)
    } else {
        h
    }
}

/// A write to a history: the history afterwards and what the write reports.
pub open spec fn put_spec(h: Seq<(VersionStamp, Seq<u8>)>, payload: Seq<u8>, now: VersionStamp) -> (
    Seq<(VersionStamp, Seq<u8>)>,
    Result<WriteOutcome, StoreError>,
) {
    let out = plan_spec(
        ids_of(h),
        if h.len() > 0 {
            Some(h.last().1)
        } else {
            None
        },
        payload,
        now,
    );
    match out {
        Ok(WriteOutcome::Created(id)) => (prune_spec(h.push((id, payload))), out),
        _ => (h, out),
    }
}

/// A history is ordered by id and holds at most `KEEP` versions.
pub open spec fn history_wf(h: Seq<(VersionStamp, Seq<u8>)>) -> bool {
    strictly_ordered(ids_of(h)) && h.len() <= KEEP
}

impl View for History {
    type V = Seq<(VersionStamp, Seq<u8>)>;

    closed spec fn view(&self) -> Seq<(VersionStamp, Seq<u8>)> {
        self.versions@.map_values(|v: StoredVersion| (v.id, v.payload@))
    }
}

impl History {
    pub open spec fn wf(&self) -> bool {
        history_wf(self@)
    }

    /// An empty history.
    pub fn new() -> (r: History)
        ensures
            r.wf(),
            r@ == Seq::<(VersionStamp, Seq<u8>)>::empty(),
    {
        let r = History { versions: Vec::new() };
        assert(r@ =~= Seq::<(VersionStamp, Seq<u8>)>::empty());
        r
    }

    /// The ordered ids of the versions held.
    pub fn list_versions(&self) -> (r: Vec<VersionStamp>)
        requires
            self.wf(),
        ensures
            r@ == ids_of(self@),
    {
        let mut r: Vec<VersionStamp> = Vec::new();
        let mut i: usize = 0;
        while i < self.versions.len()
            invariant
                i <= self.versions@.len(),
                r@ == ids_of(self@).take(i as int),
            decreases self.versions@.len() - i,
        {
            r.push(self.versions[i].id);
            assert(r@ =~= ids_of(self@).take(i + 1));
            i = i + 1;
        }
        assert(r@ =~= ids_of(self@));
        r
    }

    /// Writes `payload` at time `now`: decides as `plan_write` does, stores a
    /// created version and then keeps only the `KEEP` most recent ones.
    pub fn put(&mut self, payload: Vec<u8>, now: VersionStamp) -> (r: Result<WriteOutcome, StoreError>)
        requires
            old(self).wf(),
            now.fits(),
        ensures
            final(self).wf(),
            (final(self)@, r) == put_spec(old(self)@, payload@, now),
    {
        let ghost h = self@;
        let ids = self.list_versions();
        let n = self.versions.len();
        let out = if n == 0 {
            plan_write(&ids, None, &payload, now)
        } else {
            plan_write(&ids, Some(&self.versions[n - 1].payload), &payload, now)
        };
        if let Ok(WriteOutcome::Created(id)) = out {
            let ghost entry = (id, payload@);
            self.versions.push(StoredVersion { id, payload });
            assert(self@ =~= h.push(entry));
            assert(ids_of(h.push(entry)) =~= ids_of(h).push(id));
            if self.versions.len() > KEEP {
                self.versions.remove(0);
                assert(self@ =~= h.push(entry).skip(1));
                assert(ids_of(self@) =~= ids_of(h).push(id).skip(1));
            }
        }
        out
    }

    /// The informational latest id: the latest version's id, or the sentinel id
    /// when the history is empty.
    pub fn latest_info(&self) -> (r: String)
        requires
            self.wf(),
        ensures
            self@.len() == 0 ==> r@ == id_chars(sentinel_spec()),
            self@.len() > 0 ==> r@ == id_chars(self@.last().0),
    {
        let ids = self.list_versions();
        latest_info(&ids)
    }

    /// The latest version's id and payload; `NotFound` when the history is empty.
    pub fn latest_content(&self) -> (r: Result<(VersionStamp, Vec<u8>), StoreError>)
        requires
            self.wf(),
        ensures
            self@.len() == 0 ==> r == Err::<(VersionStamp, Vec<u8>), StoreError>(
                StoreError::NotFound,
            ),
            self@.len() > 0 ==> (r matches Ok((id, p)) && id == self@.last().0 && p@
                == self@.last().1),
    {
        let n = self.versions.len();
        if n == 0 {
            return Err(StoreError::NotFound);
        }
        let last = &self.versions[n - 1];
        let p = last.payload.clone();
        assert(p@ =~= last.payload@);
        Ok((last.id, p))
    }
}

/// After a successful write of a payload, writing the same payload again is a
/// no-op reported as `Deduplicated`, whatever the time; the first write to an
/// empty history is `Created`.
pub proof fn lemma_repeat_write_deduplicates(
    h: Seq<(VersionStamp, Seq<u8>)>,
    payload: Seq<u8>,
    t1: VersionStamp,
    t2: VersionStamp,
)
    requires
        history_wf(h),
        t1.fits(),
        t2.fits(),
        put_spec(h, payload, t1).1 is Ok,
    ensures
        h.len() == 0 ==> put_spec(h, payload, t1).1 == Ok::<WriteOutcome, StoreError>(
            WriteOutcome::Created(t1),
        ),
        put_spec(put_spec(h, payload, t1).0, payload, t2) == (
            put_spec(h, payload, t1).0,
            Ok::<WriteOutcome, StoreError>(WriteOutcome::Deduplicated),
        ),
{
    let h1 = put_spec(h, payload, t1).0;
    if let Ok(WriteOutcome::Created(id)) = put_spec(h, payload, t1).1 {
        let pushed = h.push((id, payload));
        assert(h1.last() == pushed.last());
    }
    assert(h1.len() > 0);
    assert(ids_of(h1).len() == h1.len());
}

/// Writes that run one after another on a namespace lose nothing and never reuse
/// an id: each one either adds its payload under an id later than every id
/// already held, or leaves the history exactly as it was; the history stays
/// ordered.
pub proof fn lemma_write_appends_or_keeps(
    h: Seq<(VersionStamp, Seq<u8>)>,
    payload: Seq<u8>,
    now: VersionStamp,
)
    requires
        history_wf(h),
        now.fits(),
    ensures
        history_wf(put_spec(h, payload, now).0),
        put_spec(h, payload, now).1 == Ok::<WriteOutcome, StoreError>(WriteOutcome::Created(now))
            ==> put_spec(h, payload, now).0 == prune_spec(h.push((now, payload))) && forall|i: int|
            0 <= i < h.len() ==> (#[trigger] h[i]).0.key() < now.key(),
        put_spec(h, payload, now).1 != Ok::<WriteOutcome, StoreError>(WriteOutcome::Created(now))
            ==> put_spec(h, payload, now).0 == h,
{
    let out = put_spec(h, payload, now).1;
    if h.len() > 0 {
        assert(ids_of(h).last() == h.last().0);
        assert forall|i: int| 0 <= i < h.len() implies (#[trigger] h[i]).0.key() <= h.last().0.key() by {
            assert(ids_of(h)[i] == h[i].0);
            assert(ids_of(h)[h.len() - 1] == h.last().0);
        }
    }
    if out == Ok::<WriteOutcome, StoreError>(WriteOutcome::Created(now)) {
        let pushed = h.push((now, payload));
        assert(ids_of(pushed) =~= ids_of(h).push(now));
        if pushed.len() > KEEP {
            assert(ids_of(pushed.skip(1)) =~= ids_of(pushed).skip(1));
        }
        assert(pushed.len() > KEEP ==> prune_spec(pushed) == pushed.skip(1));
    }
}

/// A sequence of writes, each a payload and the time it was made, replayed on an
/// empty history.
pub open spec fn replay(writes: Seq<(Seq<u8>, VersionStamp)>) -> Seq<(VersionStamp, Seq<u8>)>
    decreases writes.len(),
{
    if writes.len() == 0 {
        Seq::empty()
    } else {
        put_spec(replay(writes.drop_last()), writes.last().0, writes.last().1).0
    }
}

/// The versions a sequence of writes would create, in order.
pub open spec fn created_by(writes: Seq<(Seq<u8>, VersionStamp)>) -> Seq<(VersionStamp, Seq<u8>)> {
    writes.map_values(|w: (Seq<u8>, VersionStamp)| (w.1, w.0))
}

pub open spec fn kept_count(n: nat) -> nat {
    if n < KEEP {
        n
    } else {
        KEEP as nat
    }
}

/// Writes with pairwise distinct payloads, made at increasing times, all create a
/// version; afterwards the history holds exactly the last `min(n, KEEP)` of them,
/// in creation order.
pub proof fn lemma_distinct_writes_keep_latest(writes: Seq<(Seq<u8>, VersionStamp)>)
    requires
        forall|i: int| 0 <= i < writes.len() ==> (#[trigger] writes[i]).1.fits(),
        forall|i: int, j: int| 0 <= i < j < writes.len() ==> writes[i].1.key() < writes[j].1.key(),
        forall|i: int, j: int| 0 <= i < j < writes.len() ==> writes[i].0 != writes[j].0,
    ensures
        history_wf(replay(writes)),
        replay(writes).len() == kept_count(writes.len()),
        replay(writes) == created_by(writes).skip(writes.len() - kept_count(writes.len())),
        writes.len() > 0 ==> put_spec(
            replay(writes.drop_last()),
            writes.last().0,
            writes.last().1,
        ).1 == Ok::<WriteOutcome, StoreError>(WriteOutcome::Created(writes.last().1)),
    decreases writes.len(),
{
    let n = writes.len();
    if n == 0 {
        assert(created_by(writes).skip(0) =~= Seq::<(VersionStamp, Seq<u8>)>::empty());
        assert(ids_of(replay(writes)) =~= Seq::<VersionStamp>::empty());
        return;
    }
    let prev = writes.drop_last();
    lemma_distinct_writes_keep_latest(prev);
    let h = replay(prev);
    let m = kept_count((n - 1) as nat);
    assert(created_by(prev) =~= created_by(writes).drop_last());
    let w = writes.last();
    let entry = (w.1, w.0);
    if h.len() > 0 {
        assert(h.last() == created_by(prev)[n - 2]);
        assert(h.last() == (writes[n - 2].1, writes[n - 2].0));
        assert(ids_of(h).last() == h.last().0);
    }
    assert(put_spec(h, w.0, w.1).1 == Ok::<WriteOutcome, StoreError>(WriteOutcome::Created(w.1)));
    let pushed = h.push(entry);
    assert(pushed =~= created_by(writes).skip(n - 1 - m));
    assert(replay(writes) == prune_spec(pushed));
    if pushed.len() > KEEP {
        assert(prune_spec(pushed) =~= created_by(writes).skip(n - KEEP));
    }
    let r = replay(writes);
    assert(ids_of(r) =~= writes.map_values(|x: (Seq<u8>, VersionStamp)| x.1).skip(n - kept_count(n)));
    assert forall|i: int, j: int| 0 <= i < j < ids_of(r).len() implies ids_of(r)[i].key() < ids_of(
        r,
    )[j].key() by {
        let k = n - kept_count(n);
        assert(ids_of(r)[i] == writes[k + i].1);
        assert(ids_of(r)[j] == writes[k + j].1);
    }
    assert forall|i: int| 0 <= i < ids_of(r).len() implies #[trigger] ids_of(r)[i].fits() by {
        let k = n - kept_count(n);
        assert(ids_of(r)[i] == writes[k + i].1);
    }
}

/// Each write of the sequence, replayed in order, reports `Created` with its own
/// time as the new id.
pub open spec fn all_created(writes: Seq<(Seq<u8>, VersionStamp)>) -> bool {
    forall|i: int|
        0 <= i < writes.len() ==> put_spec(replay(writes.take(i)), writes[i].0, #[trigger] writes[i].1).1
            == Ok::<WriteOutcome, StoreError>(WriteOutcome::Created(writes[i].1))
}

/// Writes that each report `Created` leave exactly the last `min(n, KEEP)` of
/// them, in creation order, with strictly increasing ids; the earlier ones are
/// gone.
pub proof fn lemma_created_writes_keep_latest(writes: Seq<(Seq<u8>, VersionStamp)>)
    requires
        forall|i: int| 0 <= i < writes.len() ==> (#[trigger] writes[i]).1.fits(),
        all_created(writes),
    ensures
        history_wf(replay(writes)),
        replay(writes).len() == kept_count(writes.len()),
        replay(writes) == created_by(writes).skip(writes.len() - kept_count(writes.len())),
    decreases writes.len(),
{
    let n = writes.len();
    if n == 0 {
        assert(created_by(writes).skip(0) =~= Seq::<(VersionStamp, Seq<u8>)>::empty());
        assert(ids_of(replay(writes)) =~= Seq::<VersionStamp>::empty());
        return;
    }
    let prev = writes.drop_last();
    assert forall|i: int| 0 <= i < prev.len() implies put_spec(
        replay(prev.take(i)),
        prev[i].0,
        #[trigger] prev[i].1,
    ).1 == Ok::<WriteOutcome, StoreError>(WriteOutcome::Created(prev[i].1)) by {
        assert(prev.take(i) =~= writes.take(i));
        assert(prev[i] == writes[i]);
        assert(put_spec(replay(writes.take(i)), writes[i].0, writes[i].1).1 == Ok::<
            WriteOutcome,
            StoreError,
        >(WriteOutcome::Created(writes[i].1)));
    }
    assert forall|i: int| 0 <= i < prev.len() implies (#[trigger] prev[i]).1.fits() by {
        assert(prev[i] == writes[i]);
    }
    lemma_created_writes_keep_latest(prev);
    let h = replay(prev);
    let m = kept_count((n - 1) as nat);
    assert(created_by(prev) =~= created_by(writes).drop_last());
    let w = writes.last();
    assert(writes.take(n - 1) =~= prev);
    assert(writes[n - 1] == w);
    assert(w.1.fits());
    assert(put_spec(h, w.0, w.1).1 == Ok::<WriteOutcome, StoreError>(WriteOutcome::Created(w.1)));
    lemma_write_appends_or_keeps(h, w.0, w.1);
    let pushed = h.push((w.1, w.0));
    assert(pushed =~= created_by(writes).skip(n - 1 - m));
    assert(replay(writes) == prune_spec(pushed));
    if pushed.len() > KEEP {
        assert(prune_spec(pushed) =~= created_by(writes).skip(n - KEEP));
    }
}

} // verus!
