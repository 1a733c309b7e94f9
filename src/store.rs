use vstd::prelude::*;

use crate::errors::TwinkleError;
use crate::types::{sub_bytes, Bytes};

verus! {

/// A key and its value, as byte strings.
pub type Record = (Seq<u8>, Seq<u8>);

/// The two-byte big-endian form of a length below 65536.
pub open spec fn be16(n: nat) -> Seq<u8> {
    seq![(n / 256) as u8, (n % 256) as u8]
}

/// A byte string behind its two-byte big-endian length.
pub open spec fn framed(s: Seq<u8>) -> Seq<u8> {
    be16(s.len()) + s
}

/// The length whose two-byte big-endian form starts at `at`.
pub open spec fn field_len(b: Seq<u8>, at: int) -> int {
    b[at] as int * 256 + b[at + 1] as int
}

/// Every key and value of the records fits under a two-byte length.
pub open spec fn all_fit(rs: Seq<Record>) -> bool {
    forall|i: int| 0 <= i < rs.len() ==> #[trigger] rs[i].0.len() <= 65535 && rs[i].1.len() <= 65535
}

/// Every key and value of the map fits under a two-byte length.
pub open spec fn map_fits(m: Map<Seq<u8>, Seq<u8>>) -> bool {
    forall|k: Seq<u8>| #[trigger] m.contains_key(k) ==> k.len() <= 65535 && m[k].len() <= 65535
}

/// The snapshot of a sequence of records: each key, then its value, each
/// behind its length, with nothing between records and nothing around them.
pub open spec fn snapshot_bytes(rs: Seq<Record>) -> Seq<u8>
    decreases rs.len(),
{
    if rs.len() == 0 {
        Seq::empty()
    } else {
        snapshot_bytes(rs.drop_last()) + framed(rs.last().0) + framed(rs.last().1)
    }
}

/// The records that a snapshot stream holds, or `None` where the stream ends
/// inside a record or between a key and its value.
pub open spec fn parse_records(b: Seq<u8>) -> Option<Seq<Record>>
    decreases b.len(),
{
    if b.len() == 0 {
        Some(Seq::empty())
    } else if b.len() < 2 {
        None
    } else {
        let kl = field_len(b, 0);
        if b.len() < 4 + kl {
            None
        } else {
            let vl = field_len(b, 2 + kl);
            if b.len() < 4 + kl + vl {
                None
            } else {
                match parse_records(b.subrange(4 + kl + vl, b.len() as int)) {
                    Some(rest) => Some(
                        seq![(b.subrange(2, 2 + kl), b.subrange(4 + kl, 4 + kl + vl))] + rest,
                    ),
                    None => None,
                }
            }
        }
    }
}

/// `rest` behind the records `done`, where `rest` parsed.
pub open spec fn after(done: Seq<Record>, rest: Option<Seq<Record>>) -> Option<Seq<Record>> {
    match rest {
        Some(r) => Some(done + r),
        None => None,
    }
}

/// The map that a sequence of records stands for: each record in turn is
/// inserted, so that of two records with one key the later one wins.
pub open spec fn map_of(rs: Seq<Record>) -> Map<Seq<u8>, Seq<u8>>
    decreases rs.len(),
{
    if rs.len() == 0 {
        Map::empty()
    } else {
        map_of(rs.drop_last()).insert(rs.last().0, rs.last().1)
    }
}

/// No two records share a key.
pub open spec fn keys_unique(rs: Seq<Record>) -> bool {
    forall|i: int, j: int|
        0 <= i < rs.len() && 0 <= j < rs.len() && i != j ==> #[trigger] rs[i].0 != #[trigger] rs[j].0
}

/// A key is in the map exactly when some record carries it.
pub proof fn lemma_map_of_dom(rs: Seq<Record>, k: Seq<u8>)
    ensures
        map_of(rs).contains_key(k) <==> exists|i: int| 0 <= i < rs.len() && rs[i].0 == k,
    decreases rs.len(),
{
    if rs.len() > 0 {
        lemma_map_of_dom(rs.drop_last(), k);
        if map_of(rs.drop_last()).contains_key(k) {
            let i = choose|i: int| 0 <= i < rs.drop_last().len() && rs.drop_last()[i].0 == k;
            assert(rs[i].0 == k);
        }
        if exists|i: int| 0 <= i < rs.len() && rs[i].0 == k {
            let i = choose|i: int| 0 <= i < rs.len() && rs[i].0 == k;
            if i < rs.len() - 1 {
                assert(rs.drop_last()[i].0 == k);
            }
        }
    }
}

/// With unique keys, each record's key maps to that record's value.
pub proof fn lemma_map_of_value(rs: Seq<Record>, i: int)
    requires
        keys_unique(rs),
        0 <= i < rs.len(),
    ensures
        map_of(rs).contains_key(rs[i].0),
        map_of(rs)[rs[i].0] == rs[i].1,
    decreases rs.len(),
{
    if i < rs.len() - 1 {
        assert(rs.drop_last()[i] == rs[i]);
        assert(keys_unique(rs.drop_last()));
        lemma_map_of_value(rs.drop_last(), i);
        assert(rs[i].0 != rs[rs.len() - 1].0);
    }
}

/// Replacing the value of one record of unique keys updates the map at that key.
pub proof fn lemma_map_of_update(rs: Seq<Record>, i: int, v: Seq<u8>)
    requires
        keys_unique(rs),
        0 <= i < rs.len(),
    ensures
        map_of(rs.update(i, (rs[i].0, v))) == map_of(rs).insert(rs[i].0, v),
    decreases rs.len(),
{
    let us = rs.update(i, (rs[i].0, v));
    if i == rs.len() - 1 {
        assert(us.drop_last() =~= rs.drop_last());
        assert(map_of(us) =~= map_of(rs).insert(rs[i].0, v));
    } else {
        let ds = rs.drop_last();
        assert(us.drop_last() =~= ds.update(i, (ds[i].0, v)));
        assert(keys_unique(ds));
        lemma_map_of_update(ds, i, v);
        assert(rs[i].0 != rs.last().0);
        assert(map_of(us) =~= map_of(rs).insert(rs[i].0, v));
    }
}

/// Taking one record out of unique keys takes its key out of the map.
pub proof fn lemma_map_of_remove(rs: Seq<Record>, i: int)
    requires
        keys_unique(rs),
        0 <= i < rs.len(),
    ensures
        map_of(rs.remove(i)) == map_of(rs).remove(rs[i].0),
    decreases rs.len(),
{
    let ds = rs.drop_last();
    assert(keys_unique(ds));
    if i == rs.len() - 1 {
        assert(rs.remove(i) =~= ds);
        assert(!map_of(ds).contains_key(rs[i].0)) by {
            lemma_map_of_dom(ds, rs[i].0);
        }
        assert(map_of(ds) =~= map_of(rs).remove(rs[i].0));
    } else {
        assert(rs.remove(i).drop_last() =~= ds.remove(i));
        assert(rs.remove(i).last() == rs.last());
        lemma_map_of_remove(ds, i);
        assert(rs[i].0 != rs.last().0);
        assert(map_of(rs.remove(i)) =~= map_of(rs).remove(rs[i].0));
    }
}

/// A map from keys to values, with unique keys and no order of its own.
///
/// Its contents are the map `self@`. The records are kept in the order in
/// which their keys were first set, which is the order a snapshot writes them
/// in.
#[derive(Debug)]
pub struct Store {
    entries: Vec<(Bytes, Bytes)>,
}

impl Store {
    /// The records, in the order the store keeps them.
    pub closed spec fn records(&self) -> Seq<Record> {
        Seq::new(self.entries@.len(), |i: int| (self.entries@[i].0@, self.entries@[i].1@))
    }

    /// The contents of the store.
    pub open spec fn view(&self) -> Map<Seq<u8>, Seq<u8>> {
        map_of(self.records())
    }

    /// The store's invariant: no key is held twice.
    pub open spec fn wf(&self) -> bool {
        keys_unique(self.records())
    }

    /// An empty store.
    pub fn new() -> (r: Store)
        ensures
            r.wf(),
            r@ == Map::<Seq<u8>, Seq<u8>>::empty(),
    {
        let r = Store { entries: Vec::new() };
        assert(r.records() =~= Seq::<Record>::empty());
        r
    }

    /// Where `key` is held among the records, if it is.
    fn find(&self, key: &Bytes) -> (r: Option<usize>)
        ensures
            match r {
                Some(i) => i < self.records().len() && self.records()[i as int].0 == key@,
                None => forall|i: int| 0 <= i < self.records().len() ==> self.records()[i].0 != key@,
            },
    {
        let mut i: usize = 0;
        while i < self.entries.len()
            invariant
                i <= self.entries@.len(),
                forall|j: int| 0 <= j < i ==> self.records()[j].0 != key@,
            decreases self.entries@.len() - i,
        {
            if bytes_eq(&self.entries[i].0, key) {
                return Some(i);
            }
            i = i + 1;
        }
        None
    }

    /// The value held under `key`, if any.
    pub fn get(&self, key: &Bytes) -> (r: Option<Bytes>)
        requires
            self.wf(),
        ensures
            match r {
                Some(v) => self@.contains_key(key@) && v@ == self@[key@],
                None => !self@.contains_key(key@),
            },
    {
        proof {
            lemma_map_of_dom(self.records(), key@);
        }
        match self.find(key) {
            Some(i) => {
                proof {
                    lemma_map_of_value(self.records(), i as int);
                }
                Some(sub_bytes(self.entries[i].1.as_slice(), 0, self.entries[i].1.len()))
            },
            None => None,
        }
    }

    /// Holds `value` under `key`, in place of any value held there before.
    pub fn set(&mut self, key: Bytes, value: Bytes)
        requires
            old(self).wf(),
        ensures
            final(self).wf(),
            final(self)@ == old(self)@.insert(key@, value@),
    {
        match self.find(&key) {
            Some(i) => {
                proof {
                    lemma_map_of_update(self.records(), i as int, value@);
                }
                let ghost rs = self.records();
                self.entries.set(i, (key, value));
                assert(self.records() =~= rs.update(i as int, (rs[i as int].0, value@)));
                assert(forall|j: int| 0 <= j < rs.len() ==> #[trigger] self.records()[j].0 == rs[j].0);
            },
            None => {
                let ghost rs = self.records();
                self.entries.push((key, value));
                assert(self.records().drop_last() =~= rs);
                assert(forall|j: int| 0 <= j < rs.len() ==> #[trigger] self.records()[j] == rs[j]);
            },
        }
    }

    /// Takes `key` and its value out of the store; an absent key leaves it as
    /// it was.
    pub fn unset(&mut self, key: &Bytes)
        requires
            old(self).wf(),
        ensures
            final(self).wf(),
            final(self)@ == old(self)@.remove(key@),
    {
        let ghost rs = self.records();
        proof {
            lemma_map_of_dom(rs, key@);
        }
        match self.find(key) {
            Some(i) => {
                proof {
                    lemma_map_of_remove(rs, i as int);
                }
                self.entries.remove(i);
                assert(self.records() =~= rs.remove(i as int));
            },
            None => {
                assert(self@ =~= old(self)@.remove(key@));
            },
        }
    }

    /// The store written in the snapshot format: each record in the store's
    /// order, its key and then its value, each behind its two-byte length.
    /// A key or value too long for that length makes it fail.
    pub fn serialize(&self) -> (r: Result<Bytes, TwinkleError>)
        requires
            self.wf(),
        ensures
            r is Ok <==> map_fits(self@),
            match r {
                Ok(b) => all_fit(self.records()) && b@ == snapshot_bytes(self.records()),
                Err(e) => !all_fit(self.records()) && e == TwinkleError::FailedSerialization,
            },
    {
        proof {
            lemma_fits(self.records());
        }
        let mut out: Bytes = Vec::new();
        let mut i: usize = 0;
        while i < self.entries.len()
            invariant
                i <= self.entries@.len(),
                all_fit(self.records()) <==> map_fits(self@),
                all_fit(self.records().take(i as int)),
                out@ == snapshot_bytes(self.records().take(i as int)),
            decreases self.entries@.len() - i,
        {
            let ghost rs = self.records();
            if self.entries[i].0.len() > 65535 || self.entries[i].1.len() > 65535 {
                assert(rs[i as int].0.len() > 65535 || rs[i as int].1.len() > 65535);
                return Err(TwinkleError::FailedSerialization);
            }
            let mut k = encode(sub_bytes(self.entries[i].0.as_slice(), 0, self.entries[i].0.len()));
            let mut v = encode(sub_bytes(self.entries[i].1.as_slice(), 0, self.entries[i].1.len()));
            out.append(&mut k);
            out.append(&mut v);
            assert(rs.take(i + 1).drop_last() =~= rs.take(i as int));
            assert(all_fit(rs.take(i + 1))) by {
                assert forall|j: int| 0 <= j < i + 1 implies #[trigger] rs.take(i + 1)[j].0.len() <= 65535
                    && rs.take(i + 1)[j].1.len() <= 65535 by {
                    if j < i {
                        assert(rs.take(i + 1)[j] == rs.take(i as int)[j]);
                    }
                }
            }
            i = i + 1;
        }
        assert(self.records().take(i as int) =~= self.records());
        Ok(out)
    }

    /// The store that a snapshot stream holds. A stream that ends inside a
    /// record, or after a key with no value, fails as a whole. Of two records
    /// with one key, the later one is kept.
    pub fn deserialize(bytes: &[u8]) -> (r: Result<Store, TwinkleError>)
        ensures
            match parse_records(bytes@) {
                Some(rs) => r is Ok && r->Ok_0.wf() && r->Ok_0@ == map_of(rs),
                None => r is Err && r->Err_0 == TwinkleError::FailedDeserialization,
            },
    {
        let mut store = Store::new();
        let mut pos: usize = 0;
        let ghost done: Seq<Record> = Seq::empty();
        assert(bytes@.subrange(0, bytes@.len() as int) =~= bytes@);
        assert(done + Seq::<Record>::empty() =~= done);
        while pos < bytes.len()
            invariant
                pos <= bytes@.len(),
                store.wf(),
                store@ == map_of(done),
                parse_records(bytes@) == after(done, parse_records(bytes@.subrange(pos as int, bytes@.len() as int))),
            decreases bytes@.len() - pos,
        {
            let ghost s = bytes@.subrange(pos as int, bytes@.len() as int);
            let (key, p1) = match read_field(bytes, pos) {
                Some(x) => x,
                None => {
                    return Err(TwinkleError::FailedDeserialization);
                },
            };
            assert(field_len(s, 0) == field_len(bytes@, pos as int));
            let (value, p2) = match read_field(bytes, p1) {
                Some(x) => x,
                None => {
                    return Err(TwinkleError::FailedDeserialization);
                },
            };
            proof {
                let kl = field_len(s, 0);
                assert(field_len(s, 2 + kl) == field_len(bytes@, p1 as int));
                assert(s.subrange(2, 2 + kl) =~= key@);
                assert(s.subrange(4 + kl, p2 - pos) =~= value@);
                assert(s.subrange(p2 - pos, s.len() as int) =~= bytes@.subrange(p2 as int, bytes@.len() as int));
                let rest = parse_records(bytes@.subrange(p2 as int, bytes@.len() as int));
                if rest is Some {
                    assert(done + (seq![(key@, value@)] + rest->Some_0) =~= done.push((key@, value@)) + rest->Some_0);
                }
            }
            let ghost kv = (key@, value@);
            store.set(key, value);
            proof {
                assert(done.push(kv).drop_last() =~= done);
                done = done.push(kv);
            }
            pos = p2;
        }
        assert(done + Seq::<Record>::empty() =~= done);
        Ok(store)
    }
}

/// Whether two byte strings are equal.
fn bytes_eq(a: &Bytes, b: &Bytes) -> (r: bool)
    ensures
        r == (a@ == b@),
{
    if a.len() != b.len() {
        return false;
    }
    let mut i: usize = 0;
    while i < a.len()
        invariant
            i <= a@.len(),
            a@.len() == b@.len(),
            forall|j: int| 0 <= j < i ==> a@[j] == b@[j],
        decreases a@.len() - i,
    {
        if a[i] != b[i] {
            return false;
        }
        i = i + 1;
    }
    assert(a@ =~= b@);
    true
}

/// The two bytes of a length below 65536 read back as that length.
proof fn lemma_be16(n: nat)
    requires
        n <= 65535,
    ensures
        be16(n).len() == 2,
        be16(n)[0] as int * 256 + be16(n)[1] as int == n,
{
    assert(n / 256 < 256);
    assert(n % 256 < 256);
    assert((n / 256) * 256 + n % 256 == n);
}

/// A snapshot read from the front: the first record, then the rest.
proof fn lemma_snapshot_front(rs: Seq<Record>)
    requires
        rs.len() > 0,
    ensures
        snapshot_bytes(rs) == framed(rs[0].0) + framed(rs[0].1) + snapshot_bytes(rs.drop_first()),
    decreases rs.len(),
{
    if rs.len() == 1 {
        assert(rs.drop_last() =~= Seq::<Record>::empty());
        assert(rs.drop_first() =~= Seq::<Record>::empty());
        assert(snapshot_bytes(rs) =~= framed(rs[0].0) + framed(rs[0].1) + snapshot_bytes(rs.drop_first()));
    } else {
        let ds = rs.drop_last();
        lemma_snapshot_front(ds);
        assert(rs.drop_first().drop_last() =~= ds.drop_first());
        assert(rs.drop_first().last() == rs.last());
        assert(ds[0] == rs[0]);
        assert(snapshot_bytes(rs) =~= framed(rs[0].0) + framed(rs[0].1) + snapshot_bytes(rs.drop_first()));
    }
}

/// A snapshot of records whose keys and values fit parses back to the same
/// records, in the same order.
pub proof fn lemma_parse_snapshot(rs: Seq<Record>)
    requires
        all_fit(rs),
    ensures
        parse_records(snapshot_bytes(rs)) == Some(rs),
    decreases rs.len(),
{
    if rs.len() == 0 {
        assert(snapshot_bytes(rs) =~= Seq::<u8>::empty());
        assert(rs =~= Seq::<Record>::empty());
    } else {
        let k = rs[0].0;
        let v = rs[0].1;
        let rest = rs.drop_first();
        assert(all_fit(rest)) by {
            assert forall|i: int| 0 <= i < rest.len() implies #[trigger] rest[i].0.len() <= 65535
                && rest[i].1.len() <= 65535 by {
                assert(rest[i] == rs[i + 1]);
            }
        }
        assert(k.len() <= 65535 && v.len() <= 65535);
        lemma_snapshot_front(rs);
        lemma_parse_snapshot(rest);
        lemma_be16(k.len());
        lemma_be16(v.len());
        let b = snapshot_bytes(rs);
        let kl = k.len() as int;
        let vl = v.len() as int;
        assert(b.len() == 4 + kl + vl + snapshot_bytes(rest).len());
        assert(field_len(b, 0) == kl);
        assert(field_len(b, 2 + kl) == vl);
        assert(b.subrange(2, 2 + kl) =~= k);
        assert(b.subrange(4 + kl, 4 + kl + vl) =~= v);
        assert(b.subrange(4 + kl + vl, b.len() as int) =~= snapshot_bytes(rest));
        assert(seq![(k, v)] + rest =~= rs);
    }
}

/// A byte string behind its two-byte big-endian length: the framing of each
/// key and each value in a snapshot.
pub fn encode(mut data: Bytes) -> (r: Bytes)
    requires
        data@.len() <= 65535,
    ensures
        r@ == framed(data@),
{
    let n = data.len();
    let mut buf: Bytes = vec![(n / 256) as u8, (n % 256) as u8];
    buf.append(&mut data);
    buf
}

/// The bytes of a length-prefixed field that starts at `pos`, and where the
/// field ends, if the whole field is there.
fn read_field(bytes: &[u8], pos: usize) -> (r: Option<(Bytes, usize)>)
    requires
        pos <= bytes@.len(),
    ensures
        match r {
            Some((f, end)) => {
                &&& pos + 2 <= bytes@.len()
                &&& end == pos + 2 + field_len(bytes@, pos as int)
                &&& end <= bytes@.len()
                &&& f@ == bytes@.subrange(pos + 2, end as int)
            },
            None => pos + 2 > bytes@.len() || pos + 2 + field_len(bytes@, pos as int) > bytes@.len(),
        },
{
    if bytes.len() - pos < 2 {
        return None;
    }
    let n = (bytes[pos] as usize) * 256 + (bytes[pos + 1] as usize);
    if bytes.len() - pos - 2 < n {
        return None;
    }
    let end = pos + 2 + n;
    let f = sub_bytes(bytes, pos + 2, end);
    Some((f, end))
}

/// A store written as a snapshot reads back as the same contents: the records
/// that `serialize` writes parse back, and `deserialize` builds from them the
/// map the store held.
pub proof fn lemma_round_trip(s: Store)
    requires
        s.wf(),
        map_fits(s@),
    ensures
        parse_records(snapshot_bytes(s.records())) == Some(s.records()),
        map_of(s.records()) == s@,
{
    lemma_fits(s.records());
    lemma_parse_snapshot(s.records());
}

/// With unique keys, the records fit exactly when the map they stand for does.
proof fn lemma_fits(rs: Seq<Record>)
    requires
        keys_unique(rs),
    ensures
        all_fit(rs) <==> map_fits(map_of(rs)),
{
    let m = map_of(rs);
    if all_fit(rs) {
        assert forall|k: Seq<u8>| #[trigger] m.contains_key(k) implies k.len() <= 65535 && m[k].len() <= 65535 by {
            lemma_map_of_dom(rs, k);
            let i = choose|i: int| 0 <= i < rs.len() && rs[i].0 == k;
            lemma_map_of_value(rs, i);
        }
    }
    if map_fits(m) {
        assert forall|i: int| 0 <= i < rs.len() implies #[trigger] rs[i].0.len() <= 65535 && rs[i].1.len() <= 65535 by {
            lemma_map_of_value(rs, i);
        }
    }
}

} // verus!
