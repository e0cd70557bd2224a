//! The keyspace: entries with optional expiry, the expiry index that the
//! reaper drains, and the pub/sub channel registry.
use vstd::prelude::*;
use vstd::utf8::*;

verus! {

#[verifier::external_type_specification]
#[verifier::external_body]
#[verifier::reject_recursive_types(T)]
pub struct ExSender<T>(tokio::sync::broadcast::Sender<T>);

#[verifier::external_type_specification]
#[verifier::external_body]
#[verifier::reject_recursive_types(T)]
pub struct ExReceiver<T>(tokio::sync::broadcast::Receiver<T>);

/// How many messages a channel holds for a receiver that lags behind.
pub const CHANNEL_CAPACITY: usize = 1024;

/// Relies on tokio::sync::broadcast::channel: a new channel and its first
/// receiver; it panics on a capacity of zero or above `usize::MAX / 2`.
#[verifier::external_body]
fn open_channel(capacity: usize) -> (r: (
    tokio::sync::broadcast::Sender<Vec<u8>>,
    tokio::sync::broadcast::Receiver<Vec<u8>>,
))
    requires
        0 < capacity <= usize::MAX / 2,
{
    tokio::sync::broadcast::channel(capacity)
}

/// Relies on tokio::sync::broadcast::Sender::subscribe: a new receiver of
/// the channel's later messages. It panics only once `usize::MAX >> 2`
/// receivers are alive, which no contract here can state.
#[verifier::external_body]
fn add_receiver(tx: &tokio::sync::broadcast::Sender<Vec<u8>>) -> (r:
    tokio::sync::broadcast::Receiver<Vec<u8>>) {
    tx.subscribe()
}

/// Relies on tokio::sync::broadcast::Sender::send: the number of receivers
/// the message was handed to, which is at least one; `None` when the
/// channel has no receiver.
#[verifier::external_body]
fn send_message(tx: &tokio::sync::broadcast::Sender<Vec<u8>>, message: Vec<u8>) -> (r: Option<
    usize,
>)
    ensures
        r matches Some(n) ==> n >= 1,
{
    tx.send(message).ok()
}

/// A stored value and the time, in milliseconds, at which it expires.
#[derive(Debug)]
pub struct Entry {
    pub data: Vec<u8>,
    pub expires_at: Option<u64>,
}

pub struct EntryV {
    pub data: Seq<u8>,
    pub expires_at: Option<u64>,
}

impl View for Entry {
    type V = EntryV;

    open spec fn view(&self) -> EntryV {
        EntryV { data: self.data@, expires_at: self.expires_at }
    }
}

/// The time `ttl` milliseconds after `now`, held at `u64::MAX`.
pub open spec fn deadline(now: u64, ttl: u64) -> u64 {
    if now + ttl > u64::MAX {
        u64::MAX
    } else {
        (now + ttl) as u64
    }
}

/// The keyspace after SET: the key holds the value and the new expiry,
/// whatever it held before.
pub open spec fn spec_set(
    m: Map<Seq<char>, EntryV>,
    key: Seq<char>,
    value: Seq<u8>,
    expire: Option<u64>,
    now: u64,
) -> Map<Seq<char>, EntryV> {
    m.insert(
        key,
        EntryV {
            data: value,
            expires_at: match expire {
                Some(ttl) => Some(deadline(now, ttl)),
                None => None,
            },
        },
    )
}

/// Whether an entry has expired at `now`.
pub open spec fn expired(e: EntryV, now: u64) -> bool {
    e.expires_at matches Some(t) && t <= now
}

/// The keyspace after the reaper ran at `now`: every expired entry is gone.
pub open spec fn spec_reap(m: Map<Seq<char>, EntryV>, now: u64) -> Map<Seq<char>, EntryV> {
    m.restrict(m.dom().filter(|k: Seq<char>| !expired(m[k], now)))
}

/// Whether the reaper must re-evaluate after SET: the new expiry is earlier
/// than every expiry already scheduled, or none was scheduled.
pub open spec fn should_notify(m: Map<Seq<char>, EntryV>, expire: Option<u64>, now: u64) -> bool {
    match expire {
        None => false,
        Some(ttl) => match earliest(m) {
            None => true,
            Some(t) => t > deadline(now, ttl),
        },
    }
}

/// The keyspace that a snapshot's records stand for; a later record of a
/// key replaces an earlier one.
pub open spec fn load_map(s: Seq<(String, Vec<u8>, Option<u64>)>) -> Map<Seq<char>, EntryV>
    decreases s.len(),
{
    if s.len() == 0 {
        Map::empty()
    } else {
        load_map(s.drop_last()).insert(
            s.last().0@,
            EntryV { data: s.last().1@, expires_at: s.last().2 },
        )
    }
}

/// The map that a list of keyed entries with distinct keys stands for.
pub open spec fn entries_map(s: Seq<(String, Entry)>) -> Map<Seq<char>, EntryV> {
    Map::new(
        |k: Seq<char>| exists|i: int| 0 <= i < s.len() && #[trigger] s[i].0@ == k,
        |k: Seq<char>| s[choose|i: int| 0 <= i < s.len() && #[trigger] s[i].0@ == k].1@,
    )
}

pub open spec fn keys_distinct(s: Seq<(String, Entry)>) -> bool {
    forall|i: int, j: int|
        0 <= i < s.len() && 0 <= j < s.len() && i != j ==> #[trigger] s[i].0@ != #[trigger] s[j].0@
}

proof fn lemma_entries_map_at(s: Seq<(String, Entry)>, i: int)
    requires
        keys_distinct(s),
        0 <= i < s.len(),
    ensures
        entries_map(s).contains_key(s[i].0@),
        entries_map(s)[s[i].0@] == s[i].1@,
{
    let k = s[i].0@;
    assert(exists|j: int| 0 <= j < s.len() && #[trigger] s[j].0@ == k);
    let j = choose|j: int| 0 <= j < s.len() && #[trigger] s[j].0@ == k;
    assert(i == j);
}

proof fn lemma_entries_map_update(s: Seq<(String, Entry)>, i: int, x: (String, Entry))
    requires
        keys_distinct(s),
        0 <= i < s.len(),
        x.0@ == s[i].0@,
    ensures
        keys_distinct(s.update(i, x)),
        entries_map(s.update(i, x)) == entries_map(s).insert(x.0@, x.1@),
{
    let t = s.update(i, x);
    assert(keys_distinct(t)) by {
        assert forall|a: int, b: int|
            0 <= a < t.len() && 0 <= b < t.len() && a != b implies #[trigger] t[a].0@
            != #[trigger] t[b].0@ by {
            assert(s[a].0@ != s[b].0@);
        }
    }
    assert forall|k: Seq<char>| #[trigger] entries_map(t).contains_key(k) == entries_map(
        s,
    ).insert(x.0@, x.1@).contains_key(k) by {
        if exists|j: int| 0 <= j < s.len() && #[trigger] s[j].0@ == k {
            let j = choose|j: int| 0 <= j < s.len() && #[trigger] s[j].0@ == k;
            assert(t[j].0@ == k);
        }
        if exists|j: int| 0 <= j < t.len() && #[trigger] t[j].0@ == k {
            let j = choose|j: int| 0 <= j < t.len() && #[trigger] t[j].0@ == k;
            assert(s[j].0@ == k);
        }
    }
    assert forall|k: Seq<char>| #[trigger] entries_map(t).contains_key(k) implies entries_map(t)[k]
        == entries_map(s).insert(x.0@, x.1@)[k] by {
        let j = choose|j: int| 0 <= j < t.len() && #[trigger] t[j].0@ == k;
        lemma_entries_map_at(t, j);
        if j != i {
            lemma_entries_map_at(s, j);
        }
    }
    assert(entries_map(t) =~= entries_map(s).insert(x.0@, x.1@));
}

proof fn lemma_entries_map_push(s: Seq<(String, Entry)>, x: (String, Entry))
    requires
        keys_distinct(s),
        !entries_map(s).contains_key(x.0@),
    ensures
        keys_distinct(s.push(x)),
        entries_map(s.push(x)) == entries_map(s).insert(x.0@, x.1@),
{
    let t = s.push(x);
    assert(keys_distinct(t)) by {
        assert forall|a: int, b: int|
            0 <= a < t.len() && 0 <= b < t.len() && a != b implies #[trigger] t[a].0@
            != #[trigger] t[b].0@ by {
            if a < s.len() && b < s.len() {
                assert(s[a].0@ != s[b].0@);
            } else if a < s.len() {
                assert(t[a] == s[a]);
            } else {
                assert(t[b] == s[b]);
            }
        }
    }
    assert forall|k: Seq<char>| #[trigger] entries_map(t).contains_key(k) == entries_map(
        s,
    ).insert(x.0@, x.1@).contains_key(k) by {
        if exists|j: int| 0 <= j < s.len() && #[trigger] s[j].0@ == k {
            let j = choose|j: int| 0 <= j < s.len() && #[trigger] s[j].0@ == k;
            assert(t[j].0@ == k);
        }
        if k == x.0@ {
            assert(t[s.len() as int].0@ == k);
        }
        if exists|j: int| 0 <= j < t.len() && #[trigger] t[j].0@ == k {
            let j = choose|j: int| 0 <= j < t.len() && #[trigger] t[j].0@ == k;
            if j < s.len() {
                assert(s[j].0@ == k);
            }
        }
    }
    assert forall|k: Seq<char>| #[trigger] entries_map(t).contains_key(k) implies entries_map(t)[k]
        == entries_map(s).insert(x.0@, x.1@)[k] by {
        let j = choose|j: int| 0 <= j < t.len() && #[trigger] t[j].0@ == k;
        lemma_entries_map_at(t, j);
        if j < s.len() {
            assert(t[j] == s[j]);
            lemma_entries_map_at(s, j);
        }
    }
    assert(entries_map(t) =~= entries_map(s).insert(x.0@, x.1@));
}

proof fn lemma_entries_map_remove(s: Seq<(String, Entry)>, i: int)
    requires
        keys_distinct(s),
        0 <= i < s.len(),
    ensures
        keys_distinct(s.remove(i)),
        entries_map(s.remove(i)) == entries_map(s).remove(s[i].0@),
{
    let t = s.remove(i);
    let k0 = s[i].0@;
    assert(keys_distinct(t)) by {
        assert forall|a: int, b: int|
            0 <= a < t.len() && 0 <= b < t.len() && a != b implies #[trigger] t[a].0@
            != #[trigger] t[b].0@ by {
            let sa = if a < i {
                a
            } else {
                a + 1
            };
            let sb = if b < i {
                b
            } else {
                b + 1
            };
            assert(t[a] == s[sa] && t[b] == s[sb]);
            assert(s[sa].0@ != s[sb].0@);
        }
    }
    assert forall|k: Seq<char>| #[trigger] entries_map(t).contains_key(k) == entries_map(
        s,
    ).remove(k0).contains_key(k) by {
        if exists|j: int| 0 <= j < s.len() && #[trigger] s[j].0@ == k {
            let j = choose|j: int| 0 <= j < s.len() && #[trigger] s[j].0@ == k;
            if j < i {
                assert(t[j].0@ == k);
            } else if j > i {
                assert(t[j - 1].0@ == k);
            }
        }
        if exists|j: int| 0 <= j < t.len() && #[trigger] t[j].0@ == k {
            let j = choose|j: int| 0 <= j < t.len() && #[trigger] t[j].0@ == k;
            let sj = if j < i {
                j
            } else {
                j + 1
            };
            assert(t[j] == s[sj]);
            assert(s[sj].0@ != s[i].0@);
        }
    }
    assert forall|k: Seq<char>| #[trigger] entries_map(t).contains_key(k) implies entries_map(t)[k]
        == entries_map(s).remove(k0)[k] by {
        let j = choose|j: int| 0 <= j < t.len() && #[trigger] t[j].0@ == k;
        lemma_entries_map_at(t, j);
        let sj = if j < i {
            j
        } else {
            j + 1
        };
        assert(t[j] == s[sj]);
        lemma_entries_map_at(s, sj);
    }
    assert(entries_map(t) =~= entries_map(s).remove(k0));
}


/// Byte-wise lexicographic order, the order of `str`.
pub open spec fn bytes_lt(a: Seq<u8>, b: Seq<u8>) -> bool
    decreases a.len(),
{
    if a.len() == 0 {
        b.len() > 0
    } else if b.len() == 0 {
        false
    } else if a[0] != b[0] {
        a[0] < b[0]
    } else {
        bytes_lt(a.drop_first(), b.drop_first())
    }
}

/// The order of the expiry index: by time, then by key.
pub open spec fn pair_lt(a: (u64, String), b: (u64, String)) -> bool {
    a.0 < b.0 || (a.0 == b.0 && bytes_lt(encode_utf8(a.1@), encode_utf8(b.1@)))
}

proof fn lemma_bytes_lt_trans(a: Seq<u8>, b: Seq<u8>, c: Seq<u8>)
    requires
        bytes_lt(a, b),
        bytes_lt(b, c),
    ensures
        bytes_lt(a, c),
    decreases a.len(),
{
    if a.len() > 0 && b.len() > 0 && c.len() > 0 && a[0] == b[0] && b[0] == c[0] {
        lemma_bytes_lt_trans(a.drop_first(), b.drop_first(), c.drop_first());
    }
}

proof fn lemma_bytes_lt_total(a: Seq<u8>, b: Seq<u8>)
    ensures
        a != b ==> bytes_lt(a, b) || bytes_lt(b, a),
        !(bytes_lt(a, b) && bytes_lt(b, a)),
    decreases a.len(),
{
    if a.len() > 0 && b.len() > 0 && a[0] == b[0] {
        lemma_bytes_lt_total(a.drop_first(), b.drop_first());
        if a != b {
            assert(a =~= seq![a[0]] + a.drop_first());
            assert(b =~= seq![b[0]] + b.drop_first());
        }
    } else if a.len() == 0 && b.len() == 0 {
        assert(a =~= b);
    }
}

proof fn lemma_pair_lt_trans(a: (u64, String), b: (u64, String), c: (u64, String))
    requires
        pair_lt(a, b),
        pair_lt(b, c),
    ensures
        pair_lt(a, c),
{
    if a.0 == b.0 && b.0 == c.0 {
        lemma_bytes_lt_trans(encode_utf8(a.1@), encode_utf8(b.1@), encode_utf8(c.1@));
    }
}

/// Two entries with different keys are ordered one way or the other.
proof fn lemma_pair_lt_total(a: (u64, String), b: (u64, String))
    requires
        a.1@ != b.1@,
    ensures
        pair_lt(a, b) || pair_lt(b, a),
{
    encode_utf8_decode_utf8(a.1@);
    encode_utf8_decode_utf8(b.1@);
    lemma_bytes_lt_total(encode_utf8(a.1@), encode_utf8(b.1@));
}

/// Whether `a` comes before `b` in byte-wise order.
fn bytes_less(a: &[u8], b: &[u8]) -> (r: bool)
    ensures
        r == bytes_lt(a@, b@),
{
    let mut i: usize = 0;
    proof {
        assert(a@.subrange(0, a@.len() as int) =~= a@);
        assert(b@.subrange(0, b@.len() as int) =~= b@);
    }
    while i < a.len() && i < b.len()
        invariant
            i <= a.len(),
            i <= b.len(),
            bytes_lt(a@, b@) == bytes_lt(a@.subrange(i as int, a@.len() as int), b@.subrange(i as int, b@.len() as int)),
        decreases a.len() - i,
    {
        let ghost sa = a@.subrange(i as int, a@.len() as int);
        let ghost sb = b@.subrange(i as int, b@.len() as int);
        proof {
            assert(sa.drop_first() =~= a@.subrange(i + 1, a@.len() as int));
            assert(sb.drop_first() =~= b@.subrange(i + 1, b@.len() as int));
        }
        if a[i] != b[i] {
            return a[i] < b[i];
        }
        i = i + 1;
    }
    a.len() - i == 0 && b.len() - i > 0
}

/// Whether the expiry index `exp` lists exactly the expiring keys of `m`,
/// each once with its time, sorted by time and then by key.
pub open spec fn indexes(exp: Seq<(u64, String)>, m: Map<Seq<char>, EntryV>) -> bool {
    &&& forall|i: int, j: int| 0 <= i < j < exp.len() ==> pair_lt(#[trigger] exp[i], #[trigger] exp[j])
    &&& forall|i: int, j: int|
        0 <= i < exp.len() && 0 <= j < exp.len() && i != j ==> #[trigger] exp[i].1@
            != #[trigger] exp[j].1@
    &&& forall|i: int|
        0 <= i < exp.len() ==> m.contains_key(#[trigger] exp[i].1@) && m[exp[i].1@].expires_at
            == Some(exp[i].0)
    &&& forall|k: Seq<char>|
        #[trigger] m.contains_key(k) && m[k].expires_at is Some ==> exists|i: int|
            0 <= i < exp.len() && #[trigger] exp[i].1@ == k
}

/// The pairs of expiry time and key that an expiry index holds.
pub open spec fn index_pairs(exp: Seq<(u64, String)>) -> Set<(u64, Seq<char>)> {
    Set::new(|p: (u64, Seq<char>)| exists|i: int| 0 <= i < exp.len() && #[trigger] exp[i].0 == p.0 && exp[i].1@ == p.1)
}

/// Whether `t` is the expiry time of some entry of `m` and no entry expires
/// earlier.
pub open spec fn is_earliest(m: Map<Seq<char>, EntryV>, t: u64) -> bool {
    &&& exists|k: Seq<char>| #[trigger] m.contains_key(k) && m[k].expires_at == Some(t)
    &&& forall|k: Seq<char>|
        #[trigger] m.contains_key(k) && m[k].expires_at is Some ==> t <= m[k].expires_at->0
}

/// The earliest expiry time among the entries of `m`, if any expires.
pub open spec fn earliest(m: Map<Seq<char>, EntryV>) -> Option<u64> {
    if exists|t: u64| #[trigger] is_earliest(m, t) {
        Some(choose|t: u64| #[trigger] is_earliest(m, t))
    } else {
        None
    }
}

proof fn lemma_earliest(exp: Seq<(u64, String)>, m: Map<Seq<char>, EntryV>)
    requires
        indexes(exp, m),
    ensures
        earliest(m) == if exp.len() == 0 {
            None
        } else {
            Some(exp[0].0)
        },
{
    if exp.len() == 0 {
        if exists|t: u64| #[trigger] is_earliest(m, t) {
            let t = choose|t: u64| #[trigger] is_earliest(m, t);
            let k = choose|k: Seq<char>| #[trigger] m.contains_key(k) && m[k].expires_at == Some(t);
            let i = choose|i: int| 0 <= i < exp.len() && #[trigger] exp[i].1@ == k;
        }
    } else {
        let t0 = exp[0].0;
        let k0 = exp[0].1@;
        assert(m.contains_key(k0) && m[k0].expires_at == Some(t0));
        assert forall|k: Seq<char>| #[trigger] m.contains_key(k) && m[k].expires_at is Some implies t0
            <= m[k].expires_at->0 by {
            let i = choose|i: int| 0 <= i < exp.len() && #[trigger] exp[i].1@ == k;
            if i > 0 {
                assert(exp[0].0 <= exp[i].0);
            }
        }
        assert(is_earliest(m, t0));
        let t = choose|t: u64| #[trigger] is_earliest(m, t);
        let kt = choose|k: Seq<char>| #[trigger] m.contains_key(k) && m[k].expires_at == Some(t);
        assert(t <= t0);
        assert(t0 <= m[kt].expires_at->0);
    }
}

/// Removing the `i`-th pair of an index leaves an index of the map without
/// that key's expiry.
proof fn lemma_index_remove(exp: Seq<(u64, String)>, m: Map<Seq<char>, EntryV>, i: int, n: Map<Seq<char>, EntryV>)
    requires
        indexes(exp, m),
        0 <= i < exp.len(),
        !n.contains_key(exp[i].1@) || n[exp[i].1@].expires_at is None,
        forall|k: Seq<char>| k != exp[i].1@ ==> (#[trigger] n.contains_key(k) == m.contains_key(k)),
        forall|k: Seq<char>| k != exp[i].1@ && #[trigger] n.contains_key(k) ==> n[k] == m[k],
    ensures
        indexes(exp.remove(i), n),
{
    let t = exp.remove(i);
    assert forall|a: int, b: int| 0 <= a < b < t.len() implies pair_lt(#[trigger] t[a], #[trigger] t[b]) by {
        let sa = if a < i { a } else { a + 1 };
        let sb = if b < i { b } else { b + 1 };
        assert(t[a] == exp[sa] && t[b] == exp[sb]);
        assert(pair_lt(exp[sa], exp[sb]));
    }
    assert forall|a: int, b: int|
        0 <= a < t.len() && 0 <= b < t.len() && a != b implies #[trigger] t[a].1@ != #[trigger] t[b].1@ by {
        let sa = if a < i { a } else { a + 1 };
        let sb = if b < i { b } else { b + 1 };
        assert(t[a] == exp[sa] && t[b] == exp[sb]);
        assert(exp[sa].1@ != exp[sb].1@);
    }
    assert forall|a: int| 0 <= a < t.len() implies n.contains_key(#[trigger] t[a].1@) && n[t[a].1@].expires_at
        == Some(t[a].0) by {
        let sa = if a < i { a } else { a + 1 };
        assert(t[a] == exp[sa]);
        assert(exp[sa].1@ != exp[i].1@);
        let k = exp[sa].1@;
        assert(m.contains_key(k) && m[k].expires_at == Some(exp[sa].0));
        assert(n.contains_key(k) == m.contains_key(k));
        assert(n[k] == m[k]);
    }
    assert forall|k: Seq<char>| #[trigger] n.contains_key(k) && n[k].expires_at is Some implies exists|a: int|
        0 <= a < t.len() && #[trigger] t[a].1@ == k by {
        let j = choose|j: int| 0 <= j < exp.len() && #[trigger] exp[j].1@ == k;
        if j < i {
            assert(t[j].1@ == k);
        } else {
            assert(t[j - 1].1@ == k);
        }
    }
}

/// An index stays an index when a key without expiry changes.
proof fn lemma_index_same(exp: Seq<(u64, String)>, m: Map<Seq<char>, EntryV>, n: Map<Seq<char>, EntryV>, key: Seq<char>)
    requires
        indexes(exp, m),
        !m.contains_key(key) || m[key].expires_at is None,
        !n.contains_key(key) || n[key].expires_at is None,
        forall|k: Seq<char>| k != key ==> (#[trigger] n.contains_key(k) == m.contains_key(k)),
        forall|k: Seq<char>| k != key && #[trigger] n.contains_key(k) ==> n[k] == m[k],
    ensures
        indexes(exp, n),
{
    assert forall|a: int| 0 <= a < exp.len() implies n.contains_key(#[trigger] exp[a].1@) && n[exp[a].1@].expires_at
        == Some(exp[a].0) by {
        let k = exp[a].1@;
        assert(m.contains_key(k) && m[k].expires_at == Some(exp[a].0));
        assert(k != key);
        assert(n.contains_key(k) == m.contains_key(k));
        assert(n[k] == m[k]);
    }
}

/// Inserting `(w, key)` at `p`, before the first later time, gives an index
/// of the map where `key` now expires at `w`.
proof fn lemma_index_insert(exp: Seq<(u64, String)>, m: Map<Seq<char>, EntryV>, p: int, x: (u64, String), n: Map<Seq<char>, EntryV>)
    requires
        indexes(exp, m),
        0 <= p <= exp.len(),
        forall|a: int| 0 <= a < p ==> pair_lt(#[trigger] exp[a], x),
        p < exp.len() ==> pair_lt(x, exp[p]),
        !m.contains_key(x.1@) || m[x.1@].expires_at is None,
        n.contains_key(x.1@) && n[x.1@].expires_at == Some(x.0),
        forall|k: Seq<char>| k != x.1@ ==> (#[trigger] n.contains_key(k) == m.contains_key(k)),
        forall|k: Seq<char>| k != x.1@ && #[trigger] n.contains_key(k) ==> n[k] == m[k],
    ensures
        indexes(exp.insert(p, x), n),
{
    let t = exp.insert(p, x);
    assert forall|a: int| 0 <= a < exp.len() implies #[trigger] exp[a].1@ != x.1@ by {}
    assert forall|a: int, b: int| 0 <= a < b < t.len() implies pair_lt(#[trigger] t[a], #[trigger] t[b]) by {
        if a < p && b < p {
            assert(pair_lt(exp[a], exp[b]));
        } else if a < p && b == p {
        } else if a < p {
            assert(pair_lt(exp[a], exp[b - 1]));
        } else if a == p {
            if b - 1 > p {
                assert(pair_lt(exp[p], exp[b - 1]));
                lemma_pair_lt_trans(x, exp[p], exp[b - 1]);
            }
        } else {
            assert(pair_lt(exp[a - 1], exp[b - 1]));
        }
    }
    assert forall|a: int, b: int|
        0 <= a < t.len() && 0 <= b < t.len() && a != b implies #[trigger] t[a].1@ != #[trigger] t[b].1@ by {
        if a != p && b != p {
            let sa = if a < p { a } else { a - 1 };
            let sb = if b < p { b } else { b - 1 };
            assert(t[a] == exp[sa] && t[b] == exp[sb]);
            assert(exp[sa].1@ != exp[sb].1@);
        } else if a == p {
            let sb = if b < p { b } else { b - 1 };
            assert(t[b] == exp[sb]);
        } else {
            let sa = if a < p { a } else { a - 1 };
            assert(t[a] == exp[sa]);
        }
    }
    assert forall|a: int| 0 <= a < t.len() implies n.contains_key(#[trigger] t[a].1@) && n[t[a].1@].expires_at
        == Some(t[a].0) by {
        if a != p {
            let sa = if a < p { a } else { a - 1 };
            assert(t[a] == exp[sa]);
            let k = exp[sa].1@;
            assert(m.contains_key(k) && m[k].expires_at == Some(exp[sa].0));
            assert(k != x.1@);
            assert(n.contains_key(k) == m.contains_key(k));
            assert(n[k] == m[k]);
        }
    }
    assert forall|k: Seq<char>| #[trigger] n.contains_key(k) && n[k].expires_at is Some implies exists|a: int|
        0 <= a < t.len() && #[trigger] t[a].1@ == k by {
        if k == x.1@ {
            assert(t[p].1@ == k);
        } else {
            let j = choose|j: int| 0 <= j < exp.len() && #[trigger] exp[j].1@ == k;
            if j < p {
                assert(t[j].1@ == k);
            } else {
                assert(t[j + 1].1@ == k);
            }
        }
    }
}


/// The channel names of a registry.
pub open spec fn channel_names(
    s: Seq<(String, tokio::sync::broadcast::Sender<Vec<u8>>)>,
) -> Set<Seq<char>> {
    Set::new(|c: Seq<char>| exists|i: int| 0 <= i < s.len() && #[trigger] s[i].0@ == c)
}

/// The shared state of the keyspace.
pub struct State {
    entries: Vec<(String, Entry)>,
    expirations: Vec<(u64, String)>,
    pub_sub: Vec<(String, tokio::sync::broadcast::Sender<Vec<u8>>)>,
    shutdown: bool,
}

impl State {
    /// The stored entries, by key.
    pub closed spec fn entries(&self) -> Map<Seq<char>, EntryV> {
        entries_map(self.entries@)
    }

    /// The pairs of expiry time and key in the expiry index.
    pub closed spec fn expirations(&self) -> Set<(u64, Seq<char>)> {
        index_pairs(self.expirations@)
    }

    /// The channels that have a broadcast sender.
    pub closed spec fn channels(&self) -> Set<Seq<char>> {
        channel_names(self.pub_sub@)
    }

    /// Whether the reaper has been told to stop.
    pub closed spec fn is_shut_down(&self) -> bool {
        self.shutdown
    }

    /// Keys are distinct, the expiry index lists exactly the expiring keys
    /// with their times, sorted by time and then by key.
    pub closed spec fn wf(&self) -> bool {
        &&& keys_distinct(self.entries@)
        &&& indexes(self.expirations@, entries_map(self.entries@))
    }

    /// An empty keyspace.
    pub fn new() -> (r: State)
        ensures
            r.wf(),
            r.entries() == Map::<Seq<char>, EntryV>::empty(),
            r.channels() == Set::<Seq<char>>::empty(),
            !r.is_shut_down(),
    {
        let r = State {
            entries: Vec::new(),
            expirations: Vec::new(),
            pub_sub: Vec::new(),
            shutdown: false,
        };
        proof {
            assert(entries_map(r.entries@) =~= Map::<Seq<char>, EntryV>::empty());
            assert(channel_names(r.pub_sub@) =~= Set::<Seq<char>>::empty());
        }
        r
    }

    /// The position of `key` among the entries.
    fn find_entry(&self, key: &String) -> (r: Option<usize>)
        requires
            keys_distinct(self.entries@),
        ensures
            r matches Some(i) ==> i < self.entries@.len() && self.entries@[i as int].0@ == key@,
            r is None ==> !self.entries().contains_key(key@),
    {
        let mut i: usize = 0;
        while i < self.entries.len()
            invariant
                i <= self.entries@.len(),
                forall|j: int| 0 <= j < i ==> #[trigger] self.entries@[j].0@ != key@,
            decreases self.entries@.len() - i,
        {
            if self.entries[i].0 == *key {
                return Some(i);
            }
            i = i + 1;
        }
        None
    }

    /// The position of `key` in the expiry index.
    fn find_expiration(&self, key: &String) -> (r: Option<usize>)
        ensures
            r matches Some(i) ==> i < self.expirations@.len() && self.expirations@[i as int].1@
                == key@,
            r is None ==> forall|j: int|
                0 <= j < self.expirations@.len() ==> #[trigger] self.expirations@[j].1@ != key@,
    {
        let mut i: usize = 0;
        while i < self.expirations.len()
            invariant
                i <= self.expirations@.len(),
                forall|j: int| 0 <= j < i ==> #[trigger] self.expirations@[j].1@ != key@,
            decreases self.expirations@.len() - i,
        {
            if self.expirations[i].1 == *key {
                return Some(i);
            }
            i = i + 1;
        }
        None
    }

    /// The value stored under `key`. Expiry is not looked at: eviction is the
    /// reaper's work.
    pub fn get(&self, key: &String) -> (r: Option<Vec<u8>>)
        requires
            self.wf(),
        ensures
            self.entries().contains_key(key@) ==> (r matches Some(v) && v@ == self.entries()[key@].data),
            !self.entries().contains_key(key@) ==> r is None,
    {
        match self.find_entry(key) {
            Some(i) => {
                proof {
                    lemma_entries_map_at(self.entries@, i as int);
                }
                Some(vstd::slice::slice_to_vec(self.entries[i].1.data.as_slice()))
            },
            None => None,
        }
    }

    /// The earliest expiry time of the keyspace.
    pub fn next_expiration(&self) -> (r: Option<u64>)
        requires
            self.wf(),
        ensures
            r == earliest(self.entries()),
    {
        proof {
            lemma_earliest(self.expirations@, self.entries());
        }
        if self.expirations.len() == 0 {
            None
        } else {
            Some(self.expirations[0].0)
        }
    }

    /// Takes `key`'s expiry, if it has one, out of the index; the entry
    /// itself is left as it is.
    fn unindex(&mut self, key: &String) -> (r: Option<usize>)
        requires
            old(self).wf(),
        ensures
            final(self).entries@ == old(self).entries@,
            final(self).pub_sub@ == old(self).pub_sub@,
            final(self).shutdown == old(self).shutdown,
            forall|n: Map<Seq<char>, EntryV>|
                (!n.contains_key(key@) || n[key@].expires_at is None) && (forall|k: Seq<char>|
                    k != key@ ==> (#[trigger] n.contains_key(k) == old(self).entries().contains_key(k)))
                    && (forall|k: Seq<char>|
                    k != key@ && #[trigger] n.contains_key(k) ==> n[k] == old(self).entries()[k])
                    ==> indexes(final(self).expirations@, n),
    {
        let r = self.find_expiration(key);
        match r {
            Some(i) => {
                let ghost exp = self.expirations@;
                self.expirations.remove(i);
                proof {
                    assert forall|n: Map<Seq<char>, EntryV>|
                        (!n.contains_key(key@) || n[key@].expires_at is None) && (forall|k: Seq<char>|
                            k != key@ ==> (#[trigger] n.contains_key(k) == old(self).entries().contains_key(k)))
                            && (forall|k: Seq<char>|
                            k != key@ && #[trigger] n.contains_key(k) ==> n[k] == old(self).entries()[k])
                        implies indexes(self.expirations@, n) by {
                        lemma_index_remove(exp, old(self).entries(), i as int, n);
                    }
                }
            },
            None => {
                proof {
                    let m = old(self).entries();
                    if m.contains_key(key@) && m[key@].expires_at is Some {
                        let j = choose|j: int|
                            0 <= j < self.expirations@.len() && #[trigger] self.expirations@[j].1@ == key@;
                    }
                    assert forall|n: Map<Seq<char>, EntryV>|
                        (!n.contains_key(key@) || n[key@].expires_at is None) && (forall|k: Seq<char>|
                            k != key@ ==> (#[trigger] n.contains_key(k) == old(self).entries().contains_key(k)))
                            && (forall|k: Seq<char>|
                            k != key@ && #[trigger] n.contains_key(k) ==> n[k] == old(self).entries()[k])
                        implies indexes(self.expirations@, n) by {
                        lemma_index_same(self.expirations@, m, n, key@);
                    }
                }
            },
        }
        r
    }

    /// Adds `(when, key)` to the index before the first later time.
    fn index(&mut self, when: u64, key: String)
        requires
            indexes(old(self).expirations@, old(self).entries().insert(key@, EntryV { data: Seq::empty(), expires_at: None })),
            keys_distinct(old(self).entries@),
            old(self).entries().contains_key(key@),
            old(self).entries()[key@].expires_at == Some(when),
        ensures
            final(self).entries@ == old(self).entries@,
            final(self).pub_sub@ == old(self).pub_sub@,
            final(self).shutdown == old(self).shutdown,
            final(self).wf(),
    {
        let ghost m0 = old(self).entries().insert(key@, EntryV { data: Seq::empty(), expires_at: None });
        let mut p: usize = 0;
        let ghost x = (when, key);
        while p < self.expirations.len() && (self.expirations[p].0 < when || (self.expirations[p].0
            == when && bytes_less(self.expirations[p].1.as_str().as_bytes(), key.as_str().as_bytes())))
            invariant
                p <= self.expirations@.len(),
                self.expirations@ == old(self).expirations@,
                x == (when, key),
                forall|a: int| 0 <= a < p ==> pair_lt(#[trigger] self.expirations@[a], x),
            decreases self.expirations@.len() - p,
        {
            p = p + 1;
        }
        proof {
            if p < self.expirations@.len() {
                let e = self.expirations@[p as int];
                assert(m0.contains_key(e.1@) && m0[e.1@].expires_at is Some);
                assert(e.1@ != key@);
                lemma_pair_lt_total(e, x);
            }
        }
        let ghost exp = self.expirations@;
        self.expirations.insert(p, (when, key));
        proof {
            lemma_index_insert(exp, m0, p as int, (when, key), self.entries());
        }
    }

    /// Stores `e` under `key`, replacing what the key held, expiry included.
    fn put(&mut self, key: String, e: Entry)
        requires
            old(self).wf(),
        ensures
            final(self).wf(),
            final(self).entries() == old(self).entries().insert(key@, e@),
            final(self).channels() == old(self).channels(),
            final(self).is_shut_down() == old(self).is_shut_down(),
    {
        let when = e.expires_at;
        let _ = self.unindex(&key);
        let ghost exp = self.expirations@;
        let ghost m0 = old(self).entries().insert(key@, EntryV { data: Seq::empty(), expires_at: None });
        proof {
            assert forall|k: Seq<char>| k != key@ implies (#[trigger] m0.contains_key(k) == old(self).entries().contains_key(k)) by {}
            assert forall|k: Seq<char>| k != key@ && #[trigger] m0.contains_key(k) implies m0[k] == old(self).entries()[k] by {}
            assert(indexes(exp, m0));
        }
        let k2 = key.clone();
        match self.find_entry(&key) {
            Some(i) => {
                proof {
                    lemma_entries_map_update(self.entries@, i as int, (key, e));
                }
                self.entries.set(i, (key, e));
            },
            None => {
                proof {
                    lemma_entries_map_push(self.entries@, (key, e));
                }
                self.entries.push((key, e));
            },
        }
        proof {
            assert(self.entries() == old(self).entries().insert(k2@, e@));
        }
        match when {
            Some(w) => {
                proof {
                    assert(m0 =~= self.entries().insert(k2@, EntryV { data: Seq::empty(), expires_at: None }));
                }
                self.index(w, k2);
            },
            None => {
                proof {
                    assert forall|k: Seq<char>| k != k2@ implies (#[trigger] self.entries().contains_key(k) == m0.contains_key(k)) by {}
                    assert forall|k: Seq<char>| k != k2@ && #[trigger] self.entries().contains_key(k) implies self.entries()[k] == m0[k] by {}
                    lemma_index_same(exp, m0, self.entries(), k2@);
                }
            },
        }
    }

    /// SET: stores `value` under `key` with an optional time to live of
    /// `expire` milliseconds from `now`, replacing the key's entry and
    /// expiry. Returns whether the reaper must be woken.
    pub fn set(&mut self, key: String, value: Vec<u8>, expire: Option<u64>, now: u64) -> (notify:
        bool)
        requires
            old(self).wf(),
        ensures
            final(self).wf(),
            final(self).entries() == spec_set(old(self).entries(), key@, value@, expire, now),
            final(self).channels() == old(self).channels(),
            final(self).is_shut_down() == old(self).is_shut_down(),
            notify == should_notify(old(self).entries(), expire, now),
    {
        let when = match expire {
            Some(ttl) => Some(
                if ttl > u64::MAX - now {
                    u64::MAX
                } else {
                    now + ttl
                },
            ),
            None => None,
        };
        let notify = match when {
            Some(w) => match self.next_expiration() {
                Some(t) => t > w,
                None => true,
            },
            None => false,
        };
        self.put(key, Entry { data: value, expires_at: when });
        notify
    }

    /// DEL: removes `key` and its expiry, if it is there.
    pub fn del(&mut self, key: &String)
        requires
            old(self).wf(),
        ensures
            final(self).wf(),
            final(self).entries() == old(self).entries().remove(key@),
            final(self).channels() == old(self).channels(),
            final(self).is_shut_down() == old(self).is_shut_down(),
    {
        let _ = self.unindex(key);
        match self.find_entry(key) {
            Some(i) => {
                proof {
                    lemma_entries_map_remove(self.entries@, i as int);
                }
                self.entries.remove(i);
            },
            None => {
                proof {
                    assert(old(self).entries().remove(key@) =~= old(self).entries());
                }
            },
        }
    }

    /// One round of the reaper at `now`: removes every expired entry, and
    /// returns the earliest expiry left, until which the reaper may sleep.
    /// Once shut down it does nothing.
    pub fn clean_expired_keys(&mut self, now: u64) -> (r: Option<u64>)
        requires
            old(self).wf(),
        ensures
            final(self).wf(),
            final(self).channels() == old(self).channels(),
            final(self).is_shut_down() == old(self).is_shut_down(),
            old(self).is_shut_down() ==> r is None && final(self).entries() == old(self).entries(),
            !old(self).is_shut_down() ==> final(self).entries() == spec_reap(old(self).entries(), now)
                && r == earliest(final(self).entries()),
    {
        if self.shutdown {
            return None;
        }
        let ghost m0 = self.entries();
        while self.expirations.len() > 0 && self.expirations[0].0 <= now
            invariant
                self.wf(),
                self.pub_sub@ == old(self).pub_sub@,
                self.shutdown == old(self).shutdown,
                m0 == old(self).entries(),
                forall|k: Seq<char>| #[trigger] self.entries().contains_key(k) ==> m0.contains_key(k)
                    && self.entries()[k] == m0[k],
                forall|k: Seq<char>|
                    #[trigger] m0.contains_key(k) && !self.entries().contains_key(k) ==> expired(
                        m0[k],
                        now,
                    ),
            decreases self.expirations@.len(),
        {
            let key = self.expirations[0].1.clone();
            let ghost m = self.entries();
            let ghost exp = self.expirations@;
            assert(m.contains_key(key@) && m[key@].expires_at == Some(exp[0].0));
            self.expirations.remove(0);
            proof {
                assert forall|k: Seq<char>| k != key@ implies (#[trigger] m.remove(key@).contains_key(k)
                    == m.contains_key(k)) by {}
                lemma_index_remove(exp, m, 0, m.remove(key@));
            }
            match self.find_entry(&key) {
                Some(i) => {
                    proof {
                        lemma_entries_map_remove(self.entries@, i as int);
                    }
                    self.entries.remove(i);
                },
                None => {},
            }
        }
        proof {
            let cur = self.entries();
            let exp = self.expirations@;
            assert forall|k: Seq<char>| #[trigger] cur.contains_key(k) implies !expired(cur[k], now) by {
                if cur[k].expires_at is Some {
                    let i = choose|i: int| 0 <= i < exp.len() && #[trigger] exp[i].1@ == k;
                    if i > 0 {
                        assert(exp[0].0 <= exp[i].0);
                    }
                }
            }
            assert(cur =~= spec_reap(m0, now));
        }
        self.next_expiration()
    }

    /// Tells the reaper to stop; it never starts again.
    pub fn shutdown_clean_task(&mut self)
        requires
            old(self).wf(),
        ensures
            final(self).wf(),
            final(self).is_shut_down(),
            final(self).entries() == old(self).entries(),
            final(self).channels() == old(self).channels(),
    {
        self.shutdown = true;
    }

    /// Whether the reaper has been told to stop.
    pub fn is_shutdown(&self) -> (r: bool)
        ensures
            r == self.is_shut_down(),
    {
        self.shutdown
    }

    /// The position of `channel` in the registry.
    fn find_channel(&self, channel: &String) -> (r: Option<usize>)
        ensures
            r matches Some(i) ==> i < self.pub_sub@.len() && self.pub_sub@[i as int].0@ == channel@,
            r is None ==> !self.channels().contains(channel@),
    {
        let mut i: usize = 0;
        while i < self.pub_sub.len()
            invariant
                i <= self.pub_sub@.len(),
                forall|j: int| 0 <= j < i ==> #[trigger] self.pub_sub@[j].0@ != channel@,
            decreases self.pub_sub@.len() - i,
        {
            if self.pub_sub[i].0 == *channel {
                return Some(i);
            }
            i = i + 1;
        }
        None
    }

    /// A receiver for `channel`, whose sender is created with room for
    /// `CHANNEL_CAPACITY` messages the first time the channel is asked for.
    pub fn subscribe(&mut self, channel: String) -> (r: tokio::sync::broadcast::Receiver<Vec<u8>>)
        requires
            old(self).wf(),
        ensures
            final(self).wf(),
            final(self).channels() == old(self).channels().insert(channel@),
            final(self).entries() == old(self).entries(),
            final(self).is_shut_down() == old(self).is_shut_down(),
    {
        match self.find_channel(&channel) {
            Some(i) => {
                proof {
                    assert(self.channels() =~= old(self).channels().insert(channel@));
                }
                add_receiver(&self.pub_sub[i].1)
            },
            None => {
                let (tx, rx) = open_channel(CHANNEL_CAPACITY);
                let ghost before = self.pub_sub@;
                self.pub_sub.push((channel, tx));
                proof {
                    assert forall|c: Seq<char>| #[trigger] self.channels().contains(c) == old(self).channels().insert(channel@).contains(c) by {
                        if exists|j: int| 0 <= j < before.len() && #[trigger] before[j].0@ == c {
                            let j = choose|j: int| 0 <= j < before.len() && #[trigger] before[j].0@ == c;
                            assert(self.pub_sub@[j].0@ == c);
                        }
                        if c == channel@ {
                            assert(self.pub_sub@[before.len() as int].0@ == c);
                        }
                        if exists|j: int| 0 <= j < self.pub_sub@.len() && #[trigger] self.pub_sub@[j].0@ == c {
                            let j = choose|j: int| 0 <= j < self.pub_sub@.len() && #[trigger] self.pub_sub@[j].0@ == c;
                            if j < before.len() {
                                assert(before[j].0@ == c);
                            }
                        }
                    }
                    assert(self.channels() =~= old(self).channels().insert(channel@));
                }
                rx
            },
        }
    }

    /// PUBLISH: hands `message` to every receiver of `channel` and returns how
    /// many there were; 0 when the channel has no sender or no receiver.
    pub fn publish(&self, channel: &String, message: Vec<u8>) -> (r: usize)
        ensures
            !self.channels().contains(channel@) ==> r == 0,
    {
        match self.find_channel(channel) {
            Some(i) => match send_message(&self.pub_sub[i].1, message) {
                Some(n) => n,
                None => 0,
            },
            None => 0,
        }
    }

    /// The entries as snapshot records: key, value and expiry time.
    pub fn entry_list(&self) -> (r: Vec<(String, Vec<u8>, Option<u64>)>)
        requires
            self.wf(),
        ensures
            load_map(r@) == self.entries(),
    {
        let mut out: Vec<(String, Vec<u8>, Option<u64>)> = Vec::new();
        let mut i: usize = 0;
        while i < self.entries.len()
            invariant
                i <= self.entries@.len(),
                keys_distinct(self.entries@),
                out@.len() == i,
                load_map(out@) == entries_map(self.entries@.take(i as int)),
            decreases self.entries@.len() - i,
        {
            let key = self.entries[i].0.clone();
            let data = vstd::slice::slice_to_vec(self.entries[i].1.data.as_slice());
            let ghost before = out@;
            out.push((key, data, self.entries[i].1.expires_at));
            proof {
                let s = self.entries@;
                let pre = s.take(i as int);
                assert(keys_distinct(pre));
                assert(!entries_map(pre).contains_key(s[i as int].0@)) by {
                    if entries_map(pre).contains_key(s[i as int].0@) {
                        let j = choose|j: int| 0 <= j < pre.len() && #[trigger] pre[j].0@ == s[i as int].0@;
                        assert(s[j].0@ != s[i as int].0@);
                    }
                }
                lemma_entries_map_push(pre, s[i as int]);
                assert(s.take(i + 1) =~= pre.push(s[i as int]));
                assert(out@.drop_last() =~= before);
            }
            i = i + 1;
        }
        proof {
            assert(self.entries@.take(i as int) =~= self.entries@);
        }
        out
    }

    /// A keyspace holding the snapshot records `items`, a later record of a
    /// key replacing an earlier one, with the expiry index rebuilt.
    pub fn from_entries(items: Vec<(String, Vec<u8>, Option<u64>)>) -> (r: State)
        ensures
            r.wf(),
            r.entries() == load_map(items@),
            r.channels() == Set::<Seq<char>>::empty(),
            !r.is_shut_down(),
    {
        let mut state = State::new();
        let mut items = items;
        let ghost all = items@;
        let mut rest: Vec<(String, Vec<u8>, Option<u64>)> = Vec::new();
        while items.len() > 0
            invariant
                items@.len() + rest@.len() == all.len(),
                all == items@ + rest@.reverse(),
            decreases items@.len(),
        {
            let item = items.pop().unwrap();
            let ghost before = rest@;
            rest.push(item);
            proof {
                assert(rest@.reverse() =~= seq![item] + before.reverse());
                assert(all =~= items@ + rest@.reverse());
            }
        }
        proof {
            assert(all =~= rest@.reverse());
        }
        let mut n: usize = 0;
        let len = rest.len();
        while rest.len() > 0
            invariant
                state.wf(),
                rest@.len() + n == len,
                len == all.len(),
                rest@.reverse() == all.subrange(n as int, len as int),
                state.entries() == load_map(all.subrange(0, n as int)),
                state.channels() == Set::<Seq<char>>::empty(),
                !state.is_shut_down(),
            decreases rest@.len(),
        {
            let ghost before = rest@;
            let (key, data, expires_at) = rest.pop().unwrap();
            proof {
                assert(before.reverse()[0] == before.last());
                assert(rest@.reverse() =~= before.reverse().subrange(1, before.len() as int));
                assert(all.subrange(0, n + 1).drop_last() =~= all.subrange(0, n as int));
                assert(all[n as int] == before.last());
            }
            state.put(key, Entry { data, expires_at });
            n = n + 1;
        }
        proof {
            assert(all.subrange(0, n as int) =~= all);
        }
        state
    }
}

/// The expiry index and the entries agree: `(t, key)` is in the index
/// exactly when `key` is stored with expiry time `t`.
pub proof fn lemma_expiry_index(s: &State)
    requires
        s.wf(),
    ensures
        forall|t: u64, k: Seq<char>|
            #[trigger] s.expirations().contains((t, k)) <==> (s.entries().contains_key(k)
                && s.entries()[k].expires_at == Some(t)),
{
    let exp = s.expirations@;
    let m = s.entries();
    assert forall|t: u64, k: Seq<char>| #[trigger] s.expirations().contains((t, k)) <==> (
    m.contains_key(k) && m[k].expires_at == Some(t)) by {
        if s.expirations().contains((t, k)) {
            let i = choose|i: int| 0 <= i < exp.len() && #[trigger] exp[i].0 == t && exp[i].1@ == k;
            assert(m.contains_key(exp[i].1@));
        }
        if m.contains_key(k) && m[k].expires_at == Some(t) {
            let i = choose|i: int| 0 <= i < exp.len() && #[trigger] exp[i].1@ == k;
            assert(exp[i].0 == t);
            assert(index_pairs(exp).contains((t, k)));
        }
    }
}

/// After SET, the expiry index lists `key` exactly with its new expiry
/// time: an earlier expiry of `key` is gone from it.
pub proof fn lemma_set_reindexes(
    before: &State,
    after: &State,
    key: Seq<char>,
    value: Seq<u8>,
    expire: Option<u64>,
    now: u64,
)
    requires
        before.wf(),
        after.wf(),
        after.entries() == spec_set(before.entries(), key, value, expire, now),
    ensures
        forall|t: u64|
            #[trigger] after.expirations().contains((t, key)) <==> (expire matches Some(ttl) && t
                == deadline(now, ttl)),
{
    lemma_expiry_index(after);
}

} // verus!
