//! The key pool: hands out healthy keys in rotation and remembers which
//! keys are exhausted or invalid.
use vstd::prelude::*;

use super::{copy_key, Key};
use crate::error::ShrinkError;
use crate::text::same_text;

verus! {

/// The health of one key.
#[derive(Debug, Clone, Copy, PartialEq, Eq, Structural)]
pub enum KeyStatus {
    Healthy,
    Exhausted,
    Invalid,
}

/// The keys of a run with the health of each and a rotation cursor.
pub struct KeyPool {
    keys: Vec<Key>,
    status: Vec<KeyStatus>,
    cursor: usize,
}

/// Counts of the pool's keys by health.
#[derive(Debug, Clone, Copy)]
pub struct KeyPoolSnapshot {
    pub total: usize,
    pub healthy: usize,
    pub exhausted: usize,
    pub invalid: usize,
}

/// The first healthy position met when scanning `status` cyclically from
/// `start`, skipping the first `offset` positions of the scan.
pub open spec fn healthy_from(status: Seq<KeyStatus>, start: int, offset: int) -> Option<int>
    decreases status.len() - offset,
{
    if offset < 0 || offset >= status.len() {
        None
    } else {
        let idx = (start + offset) % (status.len() as int);
        if status[idx] == KeyStatus::Healthy {
            Some(idx)
        } else {
            healthy_from(status, start, offset + 1)
        }
    }
}

/// The position `next_healthy` hands out for a pool with health `status`
/// and cursor `cursor`: the first healthy key at or after `cursor % n`,
/// wrapping around.
pub open spec fn rotation_pick(status: Seq<KeyStatus>, cursor: int) -> Option<int> {
    healthy_from(status, cursor % (status.len() as int), 0)
}

/// The cursor after one draw: one more, wrapping at the top of `usize`.
pub open spec fn cursor_after(cursor: usize) -> usize {
    if cursor == usize::MAX {
        0
    } else {
        (cursor + 1) as usize
    }
}

/// The number of keys whose health is `s`.
pub open spec fn count_status(status: Seq<KeyStatus>, s: KeyStatus) -> nat
    decreases status.len(),
{
    if status.len() == 0 {
        0
    } else {
        count_status(status.drop_last(), s) + if status.last() == s {
            1nat
        } else {
            0nat
        }
    }
}

/// `status` after marking every key whose hash is `hash` with `s`.
pub open spec fn marked(keys: Seq<Key>, status: Seq<KeyStatus>, hash: Seq<char>, s: KeyStatus) -> Seq<
    KeyStatus,
> {
    Seq::new(
        status.len(),
        |i: int|
            if keys[i].hash@ == hash {
                s
            } else {
                status[i]
            },
    )
}

impl KeyPool {
    #[verifier::type_invariant]
    spec fn well_formed(self) -> bool {
        self.status@.len() == self.keys@.len()
    }

    /// The keys of the pool, in order.
    pub closed spec fn keys(&self) -> Seq<Key> {
        self.keys@
    }

    /// The health of each key, position for position.
    pub closed spec fn statuses(&self) -> Seq<KeyStatus> {
        self.status@
    }

    /// The rotation cursor: how many draws have been made, modulo `usize`.
    pub closed spec fn cursor(&self) -> usize {
        self.cursor
    }

    /// A pool of `keys`, all healthy, with the cursor at the first key.
    pub fn new(keys: Vec<Key>) -> (p: KeyPool)
        ensures
            p.keys() == keys@,
            p.statuses() == Seq::new(keys@.len(), |i: int| KeyStatus::Healthy),
            p.cursor() == 0,
    {
        let n = keys.len();
        let mut status: Vec<KeyStatus> = Vec::new();
        while status.len() < n
            invariant
                status@.len() <= n,
                forall|i: int| 0 <= i < status@.len() ==> status@[i] == KeyStatus::Healthy,
            decreases n - status@.len(),
        {
            status.push(KeyStatus::Healthy);
        }
        proof {
            assert(status@ =~= Seq::new(keys@.len(), |i: int| KeyStatus::Healthy));
        }
        KeyPool { keys, status, cursor: 0 }
    }

    /// The number of keys.
    pub fn total(&self) -> (n: usize)
        ensures
            n == self.keys().len(),
            self.statuses().len() == self.keys().len(),
    {
        proof {
            use_type_invariant(self);
        }
        self.keys.len()
    }

    /// Returns the next healthy key, advancing the cursor: the first healthy
    /// key at or after the cursor's position, wrapping around. Fails with
    /// `NoKeysConfigured` on an empty pool (the cursor then stays) and with
    /// `AllKeysExhausted` when no key is healthy.
    pub fn next_healthy(&mut self) -> (r: Result<Key, ShrinkError>)
        ensures
            final(self).keys() == old(self).keys(),
            final(self).statuses() == old(self).statuses(),
            final(self).statuses().len() == final(self).keys().len(),
            old(self).keys().len() == 0 ==> r == Err::<Key, ShrinkError>(
                ShrinkError::NoKeysConfigured,
            ) && final(self).cursor() == old(self).cursor(),
            old(self).keys().len() > 0 ==> final(self).cursor() == cursor_after(old(self).cursor()),
            old(self).keys().len() > 0 ==> match rotation_pick(old(self).statuses(), old(self).cursor() as int) {
                Some(i) => r == Ok::<Key, ShrinkError>(old(self).keys()[i]),
                None => r == Err::<Key, ShrinkError>(ShrinkError::AllKeysExhausted),
            },
    {
        proof {
            use_type_invariant(&*self);
        }
        let n = self.keys.len();
        if n == 0 {
            return Err(ShrinkError::NoKeysConfigured);
        }
        let start = self.cursor % n;
        self.cursor = if self.cursor == usize::MAX {
            0
        } else {
            self.cursor + 1
        };
        let mut offset: usize = 0;
        while offset < n
            invariant
                n == self.keys@.len() == self.status@.len(),
                self.keys@ == old(self).keys@,
                self.status@ == old(self).status@,
                start == old(self).cursor % n,
                self.cursor == cursor_after(old(self).cursor),
                0 <= offset <= n,
                start < n,
                healthy_from(self.status@, start as int, 0) == healthy_from(
                    self.status@,
                    start as int,
                    offset as int,
                ),
            decreases n - offset,
        {
            let idx = if offset < n - start {
                start + offset
            } else {
                offset - (n - start)
            };
            assert(idx == (start + offset) % (n as int)) by (nonlinear_arith)
                requires
                    start < n,
                    offset < n,
                    idx == if offset < n - start { start + offset } else { offset - (n - start) },
            ;
            if self.status[idx] == KeyStatus::Healthy {
                return Ok(copy_key(&self.keys[idx]));
            }
            offset = offset + 1;
        }
        Err(ShrinkError::AllKeysExhausted)
    }

    /// Marks every key whose hash is `hash` as exhausted.
    pub fn mark_exhausted(&mut self, hash: &str)
        ensures
            final(self).keys() == old(self).keys(),
            final(self).cursor() == old(self).cursor(),
            final(self).statuses() == marked(old(self).keys(), old(self).statuses(), hash@, KeyStatus::Exhausted),
            final(self).statuses().len() == final(self).keys().len(),
    {
        self.mark(hash, KeyStatus::Exhausted);
    }

    /// Marks every key whose hash is `hash` as invalid.
    pub fn mark_invalid(&mut self, hash: &str)
        ensures
            final(self).keys() == old(self).keys(),
            final(self).cursor() == old(self).cursor(),
            final(self).statuses() == marked(old(self).keys(), old(self).statuses(), hash@, KeyStatus::Invalid),
            final(self).statuses().len() == final(self).keys().len(),
    {
        self.mark(hash, KeyStatus::Invalid);
    }

    fn mark(&mut self, hash: &str, new_status: KeyStatus)
        ensures
            final(self).keys() == old(self).keys(),
            final(self).cursor() == old(self).cursor(),
            final(self).statuses() == marked(old(self).keys(), old(self).statuses(), hash@, new_status),
            final(self).statuses().len() == final(self).keys().len(),
    {
        proof {
            use_type_invariant(&*self);
        }
        let ghost old_status = self.status@;
        let ghost keys = self.keys@;
        let n = self.keys.len();
        let mut status: Vec<KeyStatus> = Vec::new();
        let mut i: usize = 0;
        while i < n
            invariant
                n == keys.len() == old_status.len(),
                keys == self.keys@,
                old_status == self.status@,
                i <= n,
                status@.len() == i,
                forall|j: int|
                    0 <= j < i ==> #[trigger] status@[j] == if keys[j].hash@ == hash@ {
                        new_status
                    } else {
                        old_status[j]
                    },
            decreases n - i,
        {
            if same_text(self.keys[i].hash.as_str(), hash) {
                status.push(new_status);
            } else {
                status.push(self.status[i]);
            }
            i = i + 1;
        }
        proof {
            assert(status@ =~= marked(keys, old_status, hash@, new_status));
        }
        self.status = status;
    }

    /// Counts of the keys by health.
    pub fn snapshot(&self) -> (s: KeyPoolSnapshot)
        ensures
            s.total == self.keys().len(),
            s.healthy == count_status(self.statuses(), KeyStatus::Healthy),
            s.exhausted == count_status(self.statuses(), KeyStatus::Exhausted),
            s.invalid == count_status(self.statuses(), KeyStatus::Invalid),
            s.healthy + s.exhausted + s.invalid == s.total,
    {
        proof {
            use_type_invariant(self);
        }
        let mut healthy: usize = 0;
        let mut exhausted: usize = 0;
        let mut invalid: usize = 0;
        let mut i: usize = 0;
        while i < self.status.len()
            invariant
                i <= self.status@.len(),
                healthy == count_status(self.status@.take(i as int), KeyStatus::Healthy),
                exhausted == count_status(self.status@.take(i as int), KeyStatus::Exhausted),
                invalid == count_status(self.status@.take(i as int), KeyStatus::Invalid),
                healthy + exhausted + invalid == i,
            decreases self.status@.len() - i,
        {
            proof {
                assert(self.status@.take(i + 1).drop_last() =~= self.status@.take(i as int));
            }
            match self.status[i] {
                KeyStatus::Healthy => healthy = healthy + 1,
                KeyStatus::Exhausted => exhausted = exhausted + 1,
                KeyStatus::Invalid => invalid = invalid + 1,
            }
            i = i + 1;
        }
        proof {
            assert(self.status@.take(self.status@.len() as int) =~= self.status@);
        }
        KeyPoolSnapshot { total: self.keys.len(), healthy, exhausted, invalid }
    }
}

} // verus!

verus! {

/// Position `k` steps after `start` on a ring of `n` positions.
pub open spec fn ring_pos(start: int, k: int, n: int) -> int {
    (start + k) % n
}

proof fn lemma_healthy_from(status: Seq<KeyStatus>, start: int, offset: int)
    requires
        0 <= offset <= status.len(),
        0 <= start,
    ensures
        match healthy_from(status, start, offset) {
            Some(i) => exists|off: int|
                offset <= off < status.len() && i == #[trigger] ring_pos(start, off, status.len() as int)
                    && status[i] == KeyStatus::Healthy && forall|k: int|
                    offset <= k < off ==> status[#[trigger] ring_pos(start, k, status.len() as int)]
                        != KeyStatus::Healthy,
            None => forall|k: int|
                offset <= k < status.len() ==> status[#[trigger] ring_pos(start, k, status.len() as int)]
                    != KeyStatus::Healthy,
        },
    decreases status.len() - offset,
{
    if offset < status.len() {
        lemma_healthy_from(status, start, offset + 1);
        let n = status.len() as int;
        assert(0 <= (start + offset) % n < n) by (nonlinear_arith)
            requires
                n > 0,
                start + offset >= 0,
        ;
        let idx = ring_pos(start, offset, n);
        if status[idx] == KeyStatus::Healthy {
            assert(healthy_from(status, start, offset) == Some(idx));
        } else {
            match healthy_from(status, start, offset + 1) {
                Some(i) => {
                    let off = choose|off: int|
                        offset + 1 <= off < n && i == #[trigger] ring_pos(start, off, n)
                            && status[i] == KeyStatus::Healthy && forall|k: int|
                            offset + 1 <= k < off ==> status[#[trigger] ring_pos(start, k, n)]
                                != KeyStatus::Healthy;
                    assert(forall|k: int|
                        offset <= k < off ==> status[#[trigger] ring_pos(start, k, n)]
                            != KeyStatus::Healthy);
                },
                None => {},
            }
        }
    }
}

/// A draw hands out a healthy key if and only if the pool has one; the key
/// handed out is the first healthy one met when scanning cyclically from
/// the cursor's position, and every key passed over before it is dead.
pub proof fn law_draw_takes_first_healthy(status: Seq<KeyStatus>, cursor: usize)
    requires
        status.len() > 0,
    ensures
        match rotation_pick(status, cursor as int) {
            Some(i) => 0 <= i < status.len() && status[i] == KeyStatus::Healthy && exists|off: int|
                0 <= off < status.len() && i == #[trigger] ring_pos((cursor as int) % (status.len() as int), off, status.len() as int)
                    && forall|k: int|
                    0 <= k < off ==> status[#[trigger] ring_pos((cursor as int) % (status.len() as int), k, status.len() as int)] != KeyStatus::Healthy,
            None => forall|i: int| 0 <= i < status.len() ==> status[i] != KeyStatus::Healthy,
        },
        (rotation_pick(status, cursor as int) is None) <==> (forall|i: int|
            0 <= i < status.len() ==> status[i] != KeyStatus::Healthy),
{
    let n = status.len() as int;
    let start = (cursor as int) % n;
    lemma_healthy_from(status, start, 0);
    match rotation_pick(status, cursor as int) {
        Some(i) => {
            let off = choose|off: int|
                0 <= off < n && i == #[trigger] ring_pos(start, off, n) && status[i] == KeyStatus::Healthy
                    && forall|k: int| 0 <= k < off ==> status[#[trigger] ring_pos(start, k, n)] != KeyStatus::Healthy;
            assert(0 <= i < n) by (nonlinear_arith)
                requires
                    n > 0,
                    start + off >= 0,
                    i == (start + off) % n,
            ;
        },
        None => {
            assert forall|i: int| 0 <= i < n implies status[i] != KeyStatus::Healthy by {
                let k = if i >= start { i - start } else { i + n - start };
                assert(0 <= start < n) by (nonlinear_arith)
                    requires
                        n > 0,
                        cursor >= 0,
                        start == (cursor as int) % n,
                ;
                assert((start + k) % n == i) by (nonlinear_arith)
                    requires
                        0 <= start < n,
                        0 <= i < n,
                        k == if i >= start { i - start } else { i + n - start },
                ;
                assert(status[ring_pos(start, k, n)] != KeyStatus::Healthy);
            }
        },
    }
}

/// Rotation: when the key at the cursor's position is healthy, the draw
/// hands out exactly that key.
pub proof fn law_draw_takes_cursor_key(status: Seq<KeyStatus>, cursor: usize)
    requires
        status.len() > 0,
        status[(cursor as int) % (status.len() as int)] == KeyStatus::Healthy,
    ensures
        rotation_pick(status, cursor as int) == Some((cursor as int) % (status.len() as int)),
{
    let n = status.len() as int;
    assert(((cursor as int) % n + 0) % n == (cursor as int) % n) by (nonlinear_arith)
        requires
            n > 0,
            cursor >= 0,
    ;
}

/// Rotation covers the pool: in a pool of `n` healthy keys, the `n`
/// successive draws made from cursor `cursor` (while the cursor does not
/// wrap) hand out every key.
pub proof fn law_rotation_covers_pool(status: Seq<KeyStatus>, cursor: usize)
    requires
        status.len() > 0,
        cursor + status.len() <= usize::MAX,
        forall|i: int| 0 <= i < status.len() ==> status[i] == KeyStatus::Healthy,
    ensures
        forall|k: int| 0 <= k < status.len() ==> cursor_after_n(cursor, k) == cursor + k,
        forall|i: int|
            0 <= i < status.len() && #[trigger] status[i] == KeyStatus::Healthy ==> exists|k: int|
                0 <= k < status.len() && rotation_pick(status, #[trigger] cursor_after_n(cursor, k) as int)
                    == Some(i),
{
    let n = status.len() as int;
    lemma_cursor_after_n(cursor, n);
    assert forall|i: int| 0 <= i < n && #[trigger] status[i] == KeyStatus::Healthy implies exists|k: int|
        0 <= k < n && rotation_pick(status, #[trigger] cursor_after_n(cursor, k) as int) == Some(i) by {
        let r = (cursor as int) % n;
        let k = if i >= r { i - r } else { i + n - r };
        assert(0 <= r < n) by (nonlinear_arith)
            requires
                n > 0,
                cursor >= 0,
                r == (cursor as int) % n,
        ;
        assert((cursor + k) % n == i) by (nonlinear_arith)
            requires
                n > 0,
                cursor >= 0,
                r == (cursor as int) % n,
                0 <= r < n,
                0 <= i < n,
                k == if i >= r { i - r } else { i + n - r },
        ;
        let c = (cursor + k) as usize;
        assert(cursor_after_n(cursor, k) == c);
        law_draw_takes_cursor_key(status, c);
    }
}

/// The cursor after `k` draws from `cursor`.
pub open spec fn cursor_after_n(cursor: usize, k: int) -> usize
    decreases k,
{
    if k <= 0 {
        cursor
    } else {
        cursor_after(cursor_after_n(cursor, k - 1))
    }
}

proof fn lemma_cursor_after_n(cursor: usize, n: int)
    requires
        0 <= n,
        cursor + n <= usize::MAX,
    ensures
        forall|k: int| 0 <= k < n ==> cursor_after_n(cursor, k) == cursor + k,
    decreases n,
{
    if n > 0 {
        lemma_cursor_after_n(cursor, n - 1);
        if n >= 2 {
            assert(cursor_after_n(cursor, n - 1) == cursor_after(cursor_after_n(cursor, n - 2)));
        }
    }
}

/// Every key is counted under exactly one health.
pub proof fn law_snapshot_counts_add_up(status: Seq<KeyStatus>)
    ensures
        count_status(status, KeyStatus::Healthy) + count_status(status, KeyStatus::Exhausted)
            + count_status(status, KeyStatus::Invalid) == status.len(),
    decreases status.len(),
{
    if status.len() > 0 {
        law_snapshot_counts_add_up(status.drop_last());
    }
}

proof fn lemma_count_healthy_monotone(before: Seq<KeyStatus>, after: Seq<KeyStatus>)
    requires
        before.len() == after.len(),
        forall|i: int|
            0 <= i < after.len() && after[i] == KeyStatus::Healthy ==> before[i]
                == KeyStatus::Healthy,
    ensures
        count_status(after, KeyStatus::Healthy) <= count_status(before, KeyStatus::Healthy),
    decreases after.len(),
{
    if after.len() > 0 {
        lemma_count_healthy_monotone(before.drop_last(), after.drop_last());
    }
}

/// Marking never revives a key: a key healthy after marking was healthy
/// before, keys with another hash keep their health, and the number of
/// healthy keys does not grow.
pub proof fn law_marking_never_revives(
    keys: Seq<Key>,
    status: Seq<KeyStatus>,
    hash: Seq<char>,
    s: KeyStatus,
)
    requires
        keys.len() == status.len(),
        s != KeyStatus::Healthy,
    ensures
        forall|i: int|
            0 <= i < status.len() && marked(keys, status, hash, s)[i] == KeyStatus::Healthy
                ==> status[i] == KeyStatus::Healthy,
        forall|i: int|
            0 <= i < status.len() && keys[i].hash@ != hash ==> #[trigger] marked(
                keys,
                status,
                hash,
                s,
            )[i] == status[i],
        count_status(marked(keys, status, hash, s), KeyStatus::Healthy) <= count_status(
            status,
            KeyStatus::Healthy,
        ),
{
    lemma_count_healthy_monotone(status, marked(keys, status, hash, s));
}

} // verus!

verus! {

/// The statuses after a series of pool operations: `None` is a draw, which
/// leaves every status as it was, and `Some((h, s))` marks every key with
/// hash `h` as `s`, as `mark_exhausted` and `mark_invalid` do.
pub open spec fn statuses_after(
    keys: Seq<Key>,
    status: Seq<KeyStatus>,
    ops: Seq<Option<(Seq<char>, KeyStatus)>>,
) -> Seq<KeyStatus>
    decreases ops.len(),
{
    if ops.len() == 0 {
        status
    } else {
        let prev = statuses_after(keys, status, ops.drop_last());
        match ops.last() {
            None => prev,
            Some((h, s)) => marked(keys, prev, h, s),
        }
    }
}

proof fn lemma_pick_is_healthy(status: Seq<KeyStatus>, start: int, offset: int)
    requires
        status.len() > 0,
    ensures
        healthy_from(status, start, offset) matches Some(i) ==> status[i] == KeyStatus::Healthy,
    decreases status.len() - offset,
{
    if 0 <= offset < status.len() {
        lemma_pick_is_healthy(status, start, offset + 1);
    }
}

proof fn lemma_dead_stays_dead(
    keys: Seq<Key>,
    status: Seq<KeyStatus>,
    ops: Seq<Option<(Seq<char>, KeyStatus)>>,
)
    requires
        keys.len() == status.len(),
        forall|k: int| 0 <= k < ops.len() ==> (#[trigger] ops[k] matches Some((_, s)) ==> s
            != KeyStatus::Healthy),
    ensures
        statuses_after(keys, status, ops).len() == status.len(),
        forall|i: int|
            0 <= i < status.len() && status[i] != KeyStatus::Healthy ==> #[trigger] statuses_after(
                keys,
                status,
                ops,
            )[i] != KeyStatus::Healthy,
    decreases ops.len(),
{
    if ops.len() > 0 {
        let p = ops.drop_last();
        assert forall|k: int| 0 <= k < p.len() implies (#[trigger] p[k] matches Some((_, s)) ==> s
            != KeyStatus::Healthy) by {
            assert(p[k] == ops[k]);
        }
        lemma_dead_stays_dead(keys, status, p);
        assert(ops.last() == ops[ops.len() - 1]);
    }
}

/// A key marked invalid (or exhausted) is never drawn again: whatever draws
/// and further marks follow, as long as no mark sets a key healthy (the
/// pool's marks set `Exhausted` or `Invalid`), no later draw, from any
/// cursor, hands out a key with the marked hash.
pub proof fn law_marked_key_never_drawn_again(
    keys: Seq<Key>,
    status: Seq<KeyStatus>,
    hash: Seq<char>,
    dead: KeyStatus,
    ops: Seq<Option<(Seq<char>, KeyStatus)>>,
    cursor: usize,
)
    requires
        keys.len() == status.len(),
        dead != KeyStatus::Healthy,
        forall|k: int| 0 <= k < ops.len() ==> (#[trigger] ops[k] matches Some((_, s)) ==> s
            != KeyStatus::Healthy),
    ensures
        forall|i: int|
            0 <= i < keys.len() && #[trigger] keys[i].hash@ == hash ==> rotation_pick(
                statuses_after(keys, marked(keys, status, hash, dead), ops),
                cursor as int,
            ) != Some(i),
{
    let st1 = marked(keys, status, hash, dead);
    lemma_dead_stays_dead(keys, st1, ops);
    let fin = statuses_after(keys, st1, ops);
    assert forall|i: int| 0 <= i < keys.len() && #[trigger] keys[i].hash@ == hash implies rotation_pick(
        fin,
        cursor as int,
    ) != Some(i) by {
        assert(st1[i] == dead);
        assert(fin[i] != KeyStatus::Healthy);
        if fin.len() > 0 {
            lemma_pick_is_healthy(fin, (cursor as int) % (fin.len() as int), 0);
        }
    }
}

} // verus!
