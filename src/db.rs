//! The relational index: authors, keys and messages, each message row pointing
//! at the log frame it was read from.
//!
//! Authors and keys are created on first sight and never change; a message row
//! names its key and its author by id. Message rows are kept in ascending log
//! order, so the high-water mark is the last row's offset.
use crate::error::Error;
use crate::ssb_message::{envelope_of, parse_message, SsbMessage};
use vstd::prelude::*;

verus! {

/// An author row: `id` is the row's position counted from 1.
#[derive(Debug)]
pub struct Author {
    pub id: Option<i32>,
    pub author: String,
}

/// A key row: `id` is the row's position counted from 1.
#[derive(Debug)]
pub struct Key {
    pub id: Option<i32>,
    pub key: String,
}

/// A message row: the log offset of its frame (`flume_seq`), the sequence the author
/// gave it, and the ids of its key and author rows.
#[derive(Debug, Clone, Copy)]
pub struct Message {
    pub flume_seq: Option<i64>,
    pub seq: i32,
    pub key_id: i32,
    pub author_id: i32,
}

/// A message row with its key and author spelled out:
/// (log offset, feed sequence, key, author).
pub type Row = (int, int, Seq<char>, Seq<char>);

/// The largest id a row can take.
pub const MAX_ID: i32 = 0x7fff_ffff;

/// The three tables of the index.
pub struct Index {
    authors: Vec<Author>,
    keys: Vec<Key>,
    messages: Vec<Message>,
    author_chains: Chains,
    key_chains: Chains,
    /// The largest offset among the messages, -1 while there are none.
    max_offset: i64,
}

/// The offset of a message row, or -1 where it has none.
pub open spec fn offset_of(m: Message) -> int {
    match m.flume_seq {
        Some(o) => o as int,
        None => -1,
    }
}

/// The offsets of the rows for author `a` whose sequence is greater than `s`, in
/// row order.
pub open spec fn newer_offsets(rows: Seq<Row>, a: Seq<char>, s: int) -> Seq<int>
    decreases rows.len(),
{
    if rows.len() == 0 {
        Seq::empty()
    } else {
        let prev = newer_offsets(rows.drop_last(), a, s);
        let r = rows.last();
        if r.3 == a && r.1 > s {
            prev.push(r.0)
        } else {
            prev
        }
    }
}

/// What a query for the rows newer than `s` returns under `limit`: all of them,
/// or the first `limit` where `limit` is given and not negative.
pub open spec fn limited(offs: Seq<int>, limit: Option<i64>) -> Seq<int> {
    match limit {
        Some(l) => if 0 <= l && l < offs.len() {
            offs.take(l as int)
        } else {
            offs
        },
        None => offs,
    }
}

pub proof fn lemma_newer_prefix(rows: Seq<Row>, a: Seq<char>, s: int, i: int)
    requires
        0 <= i <= rows.len(),
    ensures
        newer_offsets(rows.take(i), a, s).len() <= newer_offsets(rows, a, s).len(),
        newer_offsets(rows, a, s).take(newer_offsets(rows.take(i), a, s).len() as int)
            == newer_offsets(rows.take(i), a, s),
    decreases rows.len(),
{
    if i == rows.len() {
        assert(rows.take(i) == rows);
        assert(newer_offsets(rows, a, s).take(newer_offsets(rows, a, s).len() as int)
            =~= newer_offsets(rows, a, s));
    } else {
        assert(rows.drop_last().take(i) == rows.take(i));
        lemma_newer_prefix(rows.drop_last(), a, s, i);
        let p = newer_offsets(rows.drop_last(), a, s);
        let q = newer_offsets(rows.take(i), a, s);
        assert(newer_offsets(rows, a, s).take(p.len() as int) =~= p);
        assert(p.take(q.len() as int) == q);
        assert(newer_offsets(rows, a, s).take(q.len() as int) =~= q);
    }
}

/// Every offset that a newer-than query returns is the offset of a row.
pub proof fn lemma_newer_members(rows: Seq<Row>, a: Seq<char>, s: int)
    ensures
        forall|i: int|
            #![trigger newer_offsets(rows, a, s)[i]]
            0 <= i < newer_offsets(rows, a, s).len() ==> exists|j: int|
                0 <= j < rows.len() && #[trigger] rows[j].0 == newer_offsets(rows, a, s)[i]
                    && rows[j].3 == a && rows[j].1 > s,
    decreases rows.len(),
{
    if rows.len() > 0 {
        let prev = rows.drop_last();
        lemma_newer_members(prev, a, s);
        assert forall|i: int|
            #![trigger newer_offsets(rows, a, s)[i]]
            0 <= i < newer_offsets(rows, a, s).len() implies exists|j: int|
                0 <= j < rows.len() && #[trigger] rows[j].0 == newer_offsets(rows, a, s)[i]
                    && rows[j].3 == a && rows[j].1 > s by {
            if i < newer_offsets(prev, a, s).len() {
                let j = choose|j: int|
                    0 <= j < prev.len() && #[trigger] prev[j].0 == newer_offsets(prev, a, s)[i]
                        && prev[j].3 == a && prev[j].1 > s;
                assert(rows[j] == prev[j]);
            } else {
                assert(rows[rows.len() - 1] == rows.last());
            }
        }
    }
}

/// Number of hash buckets over author and key names.
pub const BUCKETS: usize = 65536;

/// The modulus of the name hash.
pub const HASH_MOD: u64 = 0x7fff_ffff;

/// A polynomial hash of the bytes `b`.
pub open spec fn name_hash(b: Seq<u8>) -> int
    decreases b.len(),
{
    if b.len() == 0 {
        0
    } else {
        (name_hash(b.drop_last()) * 31 + b.last() as int) % (HASH_MOD as int)
    }
}

/// The bucket of a name: the hash of its UTF-8 bytes, modulo the number of buckets.
pub open spec fn bucket_of(name: Seq<char>) -> int {
    name_hash(vstd::utf8::encode_utf8(name)) % (BUCKETS as int)
}

/// Computes the bucket of `s`.
fn bucket_of_str(s: &str) -> (r: usize)
    ensures
        r == bucket_of(s@),
        r < BUCKETS,
{
    let b = s.as_bytes();
    let mut h: u64 = 0;
    let mut i: usize = 0;
    while i < b.len()
        invariant
            i <= b@.len(),
            h == name_hash(b@.take(i as int)),
            h < HASH_MOD,
        decreases b@.len() - i,
    {
        proof {
            assert(b@.take(i as int + 1).drop_last() == b@.take(i as int));
            assert(b@.take(i as int + 1).last() == b@[i as int]);
        }
        h = (h * 31 + b[i] as u64) % HASH_MOD;
        i = i + 1;
    }
    proof {
        assert(b@.take(i as int) == b@);
    }
    (h % BUCKETS as u64) as usize
}

/// Hash chains over a table of names: `heads[b]` is the id (position plus one) of
/// the newest name in bucket `b`, and `next[i]` the id of the newest name older
/// than name `i` in the same bucket; 0 stands for none.
struct Chains {
    heads: Vec<usize>,
    next: Vec<usize>,
}

impl Chains {
    spec fn wf(&self, names: Seq<Seq<char>>) -> bool {
        &&& self.heads@.len() == BUCKETS
        &&& self.next@.len() == names.len()
        &&& forall|b: int|
            #![trigger self.heads@[b]]
            0 <= b < BUCKETS ==> {
                &&& self.heads@[b] <= names.len()
                &&& self.heads@[b] > 0 ==> bucket_of(names[self.heads@[b] - 1]) == b
                &&& forall|j: int|
                    self.heads@[b] <= j < names.len() ==> bucket_of(#[trigger] names[j]) != b
            }
        &&& forall|i: int|
            #![trigger self.next@[i]]
            0 <= i < names.len() ==> {
                &&& self.next@[i] <= i
                &&& self.next@[i] > 0 ==> bucket_of(names[self.next@[i] - 1]) == bucket_of(names[i])
                &&& forall|j: int|
                    self.next@[i] <= j < i ==> bucket_of(#[trigger] names[j]) != bucket_of(names[i])
            }
    }

    fn new() -> (r: Chains)
        ensures
            r.wf(Seq::empty()),
    {
        let mut heads: Vec<usize> = Vec::new();
        let mut i: usize = 0;
        while i < BUCKETS
            invariant
                i <= BUCKETS,
                heads@.len() == i,
                forall|b: int| 0 <= b < i ==> #[trigger] heads@[b] == 0,
            decreases BUCKETS - i,
        {
            heads.push(0);
            i = i + 1;
        }
        Chains { heads, next: Vec::new() }
    }

    /// Links a new name, in bucket `b`, at the end of the table.
    fn add(&mut self, Ghost(names): Ghost<Seq<Seq<char>>>, Ghost(name): Ghost<Seq<char>>, b: usize)
        requires
            old(self).wf(names),
            b == bucket_of(name),
            names.len() < usize::MAX,
        ensures
            final(self).wf(names.push(name)),
    {
        let n = self.next.len();
        let h = self.heads[b];
        self.next.push(h);
        self.heads.set(b, n + 1);
        let ghost names2 = names.push(name);
        proof {
            assert(names2[n as int] == name);
            assert forall|j: int| 0 <= j < names.len() implies #[trigger] names2[j] == names[j] by {}
            assert forall|c: int|
                #![trigger self.heads@[c]]
                0 <= c < BUCKETS implies {
                    &&& self.heads@[c] <= names2.len()
                    &&& self.heads@[c] > 0 ==> bucket_of(names2[self.heads@[c] - 1]) == c
                    &&& forall|j: int|
                        self.heads@[c] <= j < names2.len() ==> bucket_of(#[trigger] names2[j]) != c
                } by {
                if c != b {
                    assert(old(self).heads@[c] == self.heads@[c]);
                    assert forall|j: int| self.heads@[c] <= j < names2.len() implies bucket_of(
                        #[trigger] names2[j],
                    ) != c by {
                        if j < names.len() {
                            assert(names2[j] == names[j]);
                        }
                    }
                }
            }
            assert forall|i: int|
                #![trigger self.next@[i]]
                0 <= i < names2.len() implies {
                    &&& self.next@[i] <= i
                    &&& self.next@[i] > 0 ==> bucket_of(names2[self.next@[i] - 1]) == bucket_of(
                        names2[i],
                    )
                    &&& forall|j: int|
                        self.next@[i] <= j < i ==> bucket_of(#[trigger] names2[j]) != bucket_of(
                            names2[i],
                        )
                } by {
                if i < n {
                    assert(self.next@[i] == old(self).next@[i]);
                    assert forall|j: int| self.next@[i] <= j < i implies bucket_of(
                        #[trigger] names2[j],
                    ) != bucket_of(names2[i]) by {
                        assert(names2[j] == names[j]);
                    }
                } else {
                    assert(self.next@[i] == old(self).heads@[b as int]);
                    assert forall|j: int| self.next@[i] <= j < i implies bucket_of(
                        #[trigger] names2[j],
                    ) != bucket_of(names2[i]) by {
                        assert(names2[j] == names[j]);
                    }
                }
            }
        }
    }
}

impl Index {
    /// The tables are consistent: ids are positions, authors and keys are
    /// distinct, every message names rows that exist and has an offset, and
    /// offsets ascend strictly.
    pub closed spec fn wf(&self) -> bool {
        &&& self.author_chains.wf(self.author_names())
        &&& self.key_chains.wf(self.key_names())
        &&& self.authors@.len() <= MAX_ID
        &&& self.keys@.len() <= MAX_ID
        &&& forall|i: int|
            0 <= i < self.authors@.len() ==> #[trigger] self.authors@[i].id == Some((i + 1) as i32)
        &&& forall|i: int|
            0 <= i < self.keys@.len() ==> #[trigger] self.keys@[i].id == Some((i + 1) as i32)
        &&& forall|i: int, j: int|
            #![trigger self.authors@[i], self.authors@[j]]
            0 <= i < j < self.authors@.len() ==> self.authors@[i].author@
                != self.authors@[j].author@
        &&& forall|i: int, j: int|
            #![trigger self.keys@[i], self.keys@[j]]
            0 <= i < j < self.keys@.len() ==> self.keys@[i].key@ != self.keys@[j].key@
        &&& forall|i: int|
            0 <= i < self.messages@.len() ==> {
                let m = #[trigger] self.messages@[i];
                &&& 1 <= m.key_id <= self.keys@.len()
                &&& 1 <= m.author_id <= self.authors@.len()
                &&& offset_of(m) >= 0
            }
        &&& forall|i: int, j: int|
            #![trigger self.messages@[i], self.messages@[j]]
            0 <= i < j < self.messages@.len() ==> offset_of(self.messages@[i]) != offset_of(
                self.messages@[j],
            )
        &&& forall|i: int|
            0 <= i < self.messages@.len() ==> offset_of(#[trigger] self.messages@[i])
                <= self.max_offset
        &&& self.messages@.len() == 0 ==> self.max_offset == -1
        &&& self.messages@.len() > 0 ==> exists|i: int|
            0 <= i < self.messages@.len() && offset_of(#[trigger] self.messages@[i])
                == self.max_offset
    }

    /// The author names, in row order.
    closed spec fn author_names(&self) -> Seq<Seq<char>> {
        Seq::new(self.authors@.len(), |i: int| self.authors@[i].author@)
    }

    /// The key names, in row order.
    closed spec fn key_names(&self) -> Seq<Seq<char>> {
        Seq::new(self.keys@.len(), |i: int| self.keys@[i].key@)
    }

    /// The message row at position `i`, with its key and author spelled out.
    pub closed spec fn row(&self, i: int) -> Row {
        let m = self.messages@[i];
        (
            offset_of(m),
            m.seq as int,
            self.keys@[m.key_id - 1].key@,
            self.authors@[m.author_id - 1].author@,
        )
    }

    /// The message rows in insertion order.
    pub closed spec fn rows(&self) -> Seq<Row> {
        Seq::new(self.messages@.len(), |i: int| self.row(i))
    }

    /// How many more authors, and as many keys, the tables can take.
    pub closed spec fn room(&self) -> int {
        let a = MAX_ID - self.authors@.len();
        let k = MAX_ID - self.keys@.len();
        if a < k {
            a
        } else {
            k
        }
    }

    /// Whether author `a` has a row.
    pub closed spec fn has_author(&self, a: Seq<char>) -> bool {
        exists|i: int| 0 <= i < self.authors@.len() && self.authors@[i].author@ == a
    }

    /// Whether key `k` has a row.
    pub closed spec fn has_key(&self, k: Seq<char>) -> bool {
        exists|i: int| 0 <= i < self.keys@.len() && self.keys@[i].key@ == k
    }

    /// The id of author `a`'s row.
    pub closed spec fn author_id(&self, a: Seq<char>) -> int {
        let i = choose|i: int| 0 <= i < self.authors@.len() && self.authors@[i].author@ == a;
        i + 1
    }

    /// The id of key `k`'s row.
    pub closed spec fn key_id(&self, k: Seq<char>) -> int {
        let i = choose|i: int| 0 <= i < self.keys@.len() && self.keys@[i].key@ == k;
        i + 1
    }

    /// Number of author rows.
    pub closed spec fn author_count(&self) -> int {
        self.authors@.len() as int
    }

    /// Number of key rows.
    pub closed spec fn key_count(&self) -> int {
        self.keys@.len() as int
    }

    /// The author string of row `id`.
    pub closed spec fn author_name(&self, id: int) -> Seq<char> {
        self.authors@[id - 1].author@
    }

    /// The key string of row `id`.
    pub closed spec fn key_name(&self, id: int) -> Seq<char> {
        self.keys@[id - 1].key@
    }

    /// Offsets in the index are distinct and not negative.
    pub proof fn lemma_rows_distinct(&self)
        requires
            self.wf(),
        ensures
            forall|i: int| 0 <= i < self.rows().len() ==> #[trigger] self.rows()[i].0 >= 0,
            forall|i: int, j: int|
                0 <= i < self.rows().len() && 0 <= j < self.rows().len() && i != j
                    ==> #[trigger] self.rows()[i].0 != #[trigger] self.rows()[j].0,
    {
        assert forall|i: int| 0 <= i < self.rows().len() implies #[trigger] self.rows()[i].0 >= 0 by {
            assert(self.rows()[i] == self.row(i));
            let m = self.messages@[i];
        }
        assert forall|i: int, j: int|
            0 <= i < self.rows().len() && 0 <= j < self.rows().len() && i != j
                implies #[trigger] self.rows()[i].0 != #[trigger] self.rows()[j].0 by {
            assert(self.rows()[i] == self.row(i));
            assert(self.rows()[j] == self.row(j));
            let mi = self.messages@[i];
            let mj = self.messages@[j];
        }
    }

    /// An empty index.
    pub fn new() -> (r: Index)
        ensures
            r.wf(),
            r.rows() == Seq::<Row>::empty(),
            r.room() == MAX_ID,
    {
        let r = Index {
            authors: Vec::new(),
            keys: Vec::new(),
            messages: Vec::new(),
            author_chains: Chains::new(),
            key_chains: Chains::new(),
            max_offset: -1,
        };
        assert(r.rows() =~= Seq::<Row>::empty());
        assert(r.author_names() =~= Seq::<Seq<char>>::empty());
        assert(r.key_names() =~= Seq::<Seq<char>>::empty());
        r
    }

    /// How many more authors, and as many keys, the tables can take.
    pub fn room_left(&self) -> (r: usize)
        requires
            self.wf(),
        ensures
            r == self.room(),
    {
        let a = MAX_ID as usize - self.authors.len();
        let k = MAX_ID as usize - self.keys.len();
        if a < k {
            a
        } else {
            k
        }
    }

    /// Number of message rows.
    pub fn len(&self) -> (r: usize)
        ensures
            r == self.rows().len(),
    {
        self.messages.len()
    }

    proof fn lemma_author_unique(&self, a: Seq<char>, i: int)
        requires
            self.wf(),
            0 <= i < self.authors@.len(),
            self.authors@[i].author@ == a,
        ensures
            self.has_author(a),
            self.author_id(a) == i + 1,
    {
        let j = choose|j: int| 0 <= j < self.authors@.len() && self.authors@[j].author@ == a;
        if j < i {
            assert(self.authors@[j].author@ != self.authors@[i].author@);
        } else if i < j {
            assert(self.authors@[i].author@ != self.authors@[j].author@);
        }
    }

    proof fn lemma_key_unique(&self, k: Seq<char>, i: int)
        requires
            self.wf(),
            0 <= i < self.keys@.len(),
            self.keys@[i].key@ == k,
        ensures
            self.has_key(k),
            self.key_id(k) == i + 1,
    {
        let j = choose|j: int| 0 <= j < self.keys@.len() && self.keys@[j].key@ == k;
        if j < i {
            assert(self.keys@[j].key@ != self.keys@[i].key@);
        } else if i < j {
            assert(self.keys@[i].key@ != self.keys@[j].key@);
        }
    }

    /// Finds the row of author `a`.
    fn lookup_author(&self, a: &str) -> (r: Option<i32>)
        requires
            self.wf(),
        ensures
            r is Some == self.has_author(a@),
            r matches Some(id) ==> id == self.author_id(a@),
    {
        let ghost names = self.author_names();
        let b = bucket_of_str(a);
        let a_owned = a.to_owned();
        let mut cur: usize = self.author_chains.heads[b];
        while cur > 0
            invariant
                self.wf(),
                names == self.author_names(),
                a_owned@ == a@,
                b == bucket_of(a@),
                cur <= names.len(),
                cur > 0 ==> bucket_of(names[cur - 1]) == b,
                forall|j: int|
                    cur <= j < names.len() && bucket_of(#[trigger] names[j]) == b ==> names[j] != a@,
            decreases cur,
        {
            proof {
                assert(names[cur - 1] == self.authors@[cur - 1].author@);
            }
            if self.authors[cur - 1].author == a_owned {
                proof {
                    self.lemma_author_unique(a@, cur - 1);
                }
                return Some(cur as i32);
            }
            cur = self.author_chains.next[cur - 1];
        }
        proof {
            if self.has_author(a@) {
                let i = choose|i: int| 0 <= i < self.authors@.len() && self.authors@[i].author@ == a@;
                assert(names[i] == a@);
            }
        }
        None
    }

    /// Finds the row of key `k`.
    fn lookup_key(&self, k: &str) -> (r: Option<i32>)
        requires
            self.wf(),
        ensures
            r is Some == self.has_key(k@),
            r matches Some(id) ==> id == self.key_id(k@),
    {
        let ghost names = self.key_names();
        let b = bucket_of_str(k);
        let k_owned = k.to_owned();
        let mut cur: usize = self.key_chains.heads[b];
        while cur > 0
            invariant
                self.wf(),
                names == self.key_names(),
                k_owned@ == k@,
                b == bucket_of(k@),
                cur <= names.len(),
                cur > 0 ==> bucket_of(names[cur - 1]) == b,
                forall|j: int|
                    cur <= j < names.len() && bucket_of(#[trigger] names[j]) == b ==> names[j] != k@,
            decreases cur,
        {
            proof {
                assert(names[cur - 1] == self.keys@[cur - 1].key@);
            }
            if self.keys[cur - 1].key == k_owned {
                proof {
                    self.lemma_key_unique(k@, cur - 1);
                }
                return Some(cur as i32);
            }
            cur = self.key_chains.next[cur - 1];
        }
        proof {
            if self.has_key(k@) {
                let i = choose|i: int| 0 <= i < self.keys@.len() && self.keys@[i].key@ == k@;
                assert(names[i] == k@);
            }
        }
        None
    }
}


/// Returns the id of author `author`, creating its row on first sight.
pub fn find_or_create_author(index: &mut Index, author: &str) -> (r: Result<i32, Error>)
    requires
        old(index).wf(),
    ensures
        final(index).wf(),
        final(index).rows() == old(index).rows(),
        final(index).key_count() == old(index).key_count(),
        forall|i: int| 1 <= i <= old(index).key_count() ==> #[trigger] final(index).key_name(i)
            == old(index).key_name(i),
        final(index).room() >= old(index).room() - 1,
        r is Err <==> !old(index).has_author(author@) && old(index).room() < 1,
        r matches Ok(id) ==> 1 <= id <= final(index).author_count() && final(index).author_name(
            id as int,
        ) == author@,
        r matches Ok(id) ==> old(index).has_author(author@) ==> id == old(index).author_id(author@)
            && final(index).room() == old(index).room(),
        r matches Err(e) ==> e == Error::SqliteAppendError,
        r is Ok ==> final(index).author_count() == old(index).author_count() + if old(index).has_author(author@) {
            0int
        } else {
            1int
        },
        forall|i: int| 1 <= i <= old(index).author_count() ==> #[trigger] final(index).author_name(i)
            == old(index).author_name(i),
        forall|a: Seq<char>|
            old(index).has_author(a) ==> #[trigger] final(index).has_author(a) && final(index).author_id(a)
                == old(index).author_id(a),
        r matches Ok(id) ==> final(index).has_author(author@) && final(index).author_id(author@) == id,
        r is Err ==> *final(index) == *old(index),
{
    match index.lookup_author(author) {
        Some(id) => {
            proof {
                let i = choose|i: int|
                    0 <= i < index.authors@.len() && index.authors@[i].author@ == author@;
                index.lemma_author_unique(author@, i);
            }
            Ok(id)
        },
        None => {
            if index.room_left() < 1 {
                return Err(Error::SqliteAppendError);
            }
            let ghost before = *index;
            let id = (index.authors.len() + 1) as i32;
            let b = bucket_of_str(author);
            index.author_chains.add(Ghost(before.author_names()), Ghost(author@), b);
            index.authors.push(Author { id: Some(id), author: author.to_owned() });
            proof {
                assert(index.author_names() =~= before.author_names().push(author@));
                assert forall|i: int, j: int|
                    #![trigger index.authors@[i], index.authors@[j]]
                    0 <= i < j < index.authors@.len() implies index.authors@[i].author@
                    != index.authors@[j].author@ by {
                    if j == index.authors@.len() - 1 {
                        assert(before.authors@[i].author@ != author@);
                    } else {
                        assert(before.authors@[i] == index.authors@[i]);
                        assert(before.authors@[j] == index.authors@[j]);
                    }
                }
                assert forall|i: int| 0 <= i < index.messages@.len() implies index.row(i)
                    == before.row(i) by {
                    let m = index.messages@[i];
                    assert(index.authors@[m.author_id - 1] == before.authors@[m.author_id - 1]);
                }
                assert(index.rows() =~= before.rows());
                assert(index.wf());
                index.lemma_author_unique(author@, before.authors@.len() as int);
                assert forall|a: Seq<char>| before.has_author(a) implies #[trigger] index.has_author(a)
                    && index.author_id(a) == before.author_id(a) by {
                    let w = choose|w: int| 0 <= w < before.authors@.len() && before.authors@[w].author@ == a;
                    before.lemma_author_unique(a, w);
                    assert(index.authors@[w] == before.authors@[w]);
                    index.lemma_author_unique(a, w);
                }
                assert(!before.has_author(author@));
            }
            Ok(id)
        },
    }
}

/// Returns the id of key `key`, creating its row on first sight.
pub fn find_or_create_key(index: &mut Index, key: &str) -> (r: Result<i32, Error>)
    requires
        old(index).wf(),
    ensures
        final(index).wf(),
        final(index).rows() == old(index).rows(),
        final(index).author_count() == old(index).author_count(),
        forall|i: int| 1 <= i <= old(index).author_count() ==> #[trigger] final(index).author_name(i)
            == old(index).author_name(i),
        final(index).room() >= old(index).room() - 1,
        r is Err <==> !old(index).has_key(key@) && old(index).room() < 1,
        r matches Ok(id) ==> 1 <= id <= final(index).key_count() && final(index).key_name(id as int)
            == key@,
        r matches Ok(id) ==> old(index).has_key(key@) ==> id == old(index).key_id(key@)
            && final(index).room() == old(index).room(),
        r matches Err(e) ==> e == Error::SqliteAppendError,
        r is Ok ==> final(index).key_count() == old(index).key_count() + if old(index).has_key(key@) {
            0int
        } else {
            1int
        },
        forall|i: int| 1 <= i <= old(index).key_count() ==> #[trigger] final(index).key_name(i)
            == old(index).key_name(i),
        forall|a: Seq<char>|
            old(index).has_key(a) ==> #[trigger] final(index).has_key(a) && final(index).key_id(a)
                == old(index).key_id(a),
        r matches Ok(id) ==> final(index).has_key(key@) && final(index).key_id(key@) == id,
        r is Err ==> *final(index) == *old(index),
{
    match index.lookup_key(key) {
        Some(id) => {
            proof {
                let i = choose|i: int| 0 <= i < index.keys@.len() && index.keys@[i].key@ == key@;
                index.lemma_key_unique(key@, i);
            }
            Ok(id)
        },
        None => {
            if index.room_left() < 1 {
                return Err(Error::SqliteAppendError);
            }
            let ghost before = *index;
            let id = (index.keys.len() + 1) as i32;
            let b = bucket_of_str(key);
            index.key_chains.add(Ghost(before.key_names()), Ghost(key@), b);
            index.keys.push(Key { id: Some(id), key: key.to_owned() });
            proof {
                assert(index.key_names() =~= before.key_names().push(key@));
                assert forall|i: int, j: int|
                    #![trigger index.keys@[i], index.keys@[j]]
                    0 <= i < j < index.keys@.len() implies index.keys@[i].key@
                    != index.keys@[j].key@ by {
                    if j == index.keys@.len() - 1 {
                        assert(before.keys@[i].key@ != key@);
                    } else {
                        assert(before.keys@[i] == index.keys@[i]);
                        assert(before.keys@[j] == index.keys@[j]);
                    }
                }
                assert forall|i: int| 0 <= i < index.messages@.len() implies index.row(i)
                    == before.row(i) by {
                    let m = index.messages@[i];
                    assert(index.keys@[m.key_id - 1] == before.keys@[m.key_id - 1]);
                }
                assert(index.rows() =~= before.rows());
                assert(index.wf());
                index.lemma_key_unique(key@, before.keys@.len() as int);
                assert forall|a: Seq<char>| before.has_key(a) implies #[trigger] index.has_key(a)
                    && index.key_id(a) == before.key_id(a) by {
                    let w = choose|w: int| 0 <= w < before.keys@.len() && before.keys@[w].key@ == a;
                    before.lemma_key_unique(a, w);
                    assert(index.keys@[w] == before.keys@[w]);
                    index.lemma_key_unique(a, w);
                }
                assert(!before.has_key(key@));
            }
            Ok(id)
        },
    }
}

/// Inserts one message row, after the others. An offset that a row already holds,
/// a negative offset, and ids that name no row are refused.
pub fn insert_message(
    index: &mut Index,
    seq: i32,
    flume_seq: i64,
    message_key_id: i32,
    author_id: i32,
) -> (r: Result<usize, Error>)
    requires
        old(index).wf(),
    ensures
        final(index).wf(),
        final(index).room() == old(index).room(),
        final(index).key_count() == old(index).key_count(),
        final(index).author_count() == old(index).author_count(),
        forall|i: int| 1 <= i <= old(index).key_count() ==> #[trigger] final(index).key_name(i)
            == old(index).key_name(i),
        forall|i: int| 1 <= i <= old(index).author_count() ==> #[trigger] final(index).author_name(i)
            == old(index).author_name(i),
        forall|a: Seq<char>| #[trigger] final(index).has_author(a) == old(index).has_author(a),
        forall|a: Seq<char>| #[trigger] final(index).author_id(a) == old(index).author_id(a),
        forall|k: Seq<char>| #[trigger] final(index).has_key(k) == old(index).has_key(k),
        forall|k: Seq<char>| #[trigger] final(index).key_id(k) == old(index).key_id(k),
        r is Ok <==> {
            &&& 0 <= flume_seq
            &&& 1 <= message_key_id <= old(index).key_count()
            &&& 1 <= author_id <= old(index).author_count()
            &&& forall|i: int|
                0 <= i < old(index).rows().len() ==> #[trigger] old(index).rows()[i].0 != flume_seq
        },
        r matches Ok(n) ==> n == 1 && final(index).rows() == old(index).rows().push(
            (
                flume_seq as int,
                seq as int,
                old(index).key_name(message_key_id as int),
                old(index).author_name(author_id as int),
            ),
        ),
        r matches Err(e) ==> e == Error::SqliteAppendError && *final(index) == *old(index),
{
    let n = index.messages.len();
    if flume_seq < 0 || message_key_id < 1 || message_key_id as usize > index.keys.len()
        || author_id < 1 || author_id as usize > index.authors.len() {
        return Err(Error::SqliteAppendError);
    }
    let ghost before = *index;
    if flume_seq <= index.max_offset {
        // not past the high-water mark: refuse a duplicate
        let mut i: usize = 0;
        while i < n
            invariant
                *index == before,
                n == index.messages@.len(),
                index.wf(),
                i <= n,
                forall|j: int| 0 <= j < i ==> #[trigger] index.rows()[j].0 != flume_seq,
            decreases n - i,
        {
            proof {
                assert(index.rows()[i as int] == index.row(i as int));
            }
            if index.messages[i].flume_seq == Some(flume_seq) {
                proof {
                    assert(index.rows()[i as int].0 == flume_seq);
                }
                return Err(Error::SqliteAppendError);
            }
            i = i + 1;
        }
    } else {
        proof {
            assert forall|j: int| 0 <= j < n implies #[trigger] index.rows()[j].0 != flume_seq by {
                assert(index.rows()[j] == index.row(j));
                assert(offset_of(index.messages@[j]) <= index.max_offset);
            }
        }
    }
    proof {
        assert(forall|j: int| 0 <= j < n ==> #[trigger] before.rows()[j].0 != flume_seq);
    }
    let new_max = if flume_seq > index.max_offset {
        flume_seq
    } else {
        index.max_offset
    };
    index.messages.push(
        Message { flume_seq: Some(flume_seq), seq, key_id: message_key_id, author_id },
    );
    index.max_offset = new_max;
    proof {
        assert forall|i: int| 0 <= i < before.messages@.len() implies index.row(i) == before.row(
            i,
        ) by {
            assert(index.messages@[i] == before.messages@[i]);
        }
        assert forall|i: int, j: int|
            #![trigger index.messages@[i], index.messages@[j]]
            0 <= i < j < index.messages@.len() implies offset_of(index.messages@[i]) != offset_of(
            index.messages@[j],
        ) by {
            if j == n {
                assert(before.rows()[i] == before.row(i));
                assert(before.rows()[i].0 != flume_seq);
                assert(index.messages@[i] == before.messages@[i]);
            } else {
                assert(index.messages@[i] == before.messages@[i]);
                assert(index.messages@[j] == before.messages@[j]);
            }
        }
        assert forall|i: int| 0 <= i < index.messages@.len() implies offset_of(
            #[trigger] index.messages@[i],
        ) <= index.max_offset by {
            if i < n {
                assert(index.messages@[i] == before.messages@[i]);
            }
        }
        if flume_seq > before.max_offset {
            assert(offset_of(index.messages@[n as int]) == index.max_offset);
        } else {
            let w = choose|w: int|
                0 <= w < before.messages@.len() && offset_of(#[trigger] before.messages@[w])
                    == before.max_offset;
            assert(index.messages@[w] == before.messages@[w]);
        }
        assert(index.rows() =~= before.rows().push(index.row(n as int)));
        assert(index.author_names() == before.author_names());
        assert(index.key_names() == before.key_names());
    }
    Ok(1)
}

/// The high-water mark: the largest offset in the index, `None` while it is empty.
pub fn get_latest(index: &Index) -> (r: Option<u64>)
    requires
        index.wf(),
    ensures
        r is None <==> index.rows().len() == 0,
        r matches Some(h) ==> (exists|i: int|
            0 <= i < index.rows().len() && #[trigger] index.rows()[i].0 == h) && forall|i: int|
            0 <= i < index.rows().len() ==> #[trigger] index.rows()[i].0 <= h,
{
    if index.messages.len() == 0 {
        return None;
    }
    proof {
        let w = choose|w: int|
            0 <= w < index.messages@.len() && offset_of(#[trigger] index.messages@[w])
                == index.max_offset;
        assert(index.rows()[w] == index.row(w));
        assert(offset_of(index.messages@[w]) >= 0);
        assert(index.rows()[w].0 == (index.max_offset as u64) as int);
        assert forall|i: int| 0 <= i < index.rows().len() implies #[trigger] index.rows()[i].0
            <= index.max_offset by {
            assert(index.rows()[i] == index.row(i));
            assert(offset_of(index.messages@[i]) <= index.max_offset);
        }
    }
    Some(index.max_offset as u64)
}

/// Indexes envelope `message`, read from the frame at `offset`.
pub fn append_parsed(index: &mut Index, offset: u64, message: &SsbMessage) -> (r: Result<(), Error>)
    requires
        old(index).wf(),
    ensures
        final(index).wf(),
        final(index).room() >= old(index).room() - 2,
        match r {
            Ok(_) => final(index).rows() == old(index).rows().push(
                (offset as int, message@.2 as i32 as int, message@.0, message@.1),
            ),
            Err(e) => e == Error::SqliteAppendError && final(index).rows() == old(index).rows(),
        },
        old(index).room() >= 2 && offset <= i64::MAX as u64 && (forall|i: int|
            0 <= i < old(index).rows().len() ==> #[trigger] old(index).rows()[i].0 != offset)
            ==> r is Ok,
        (exists|i: int| 0 <= i < old(index).rows().len() && #[trigger] old(index).rows()[i].0 == offset)
            ==> r is Err,
{
    if offset > i64::MAX as u64 {
        return Err(Error::SqliteAppendError);
    }
    let key_id = find_or_create_key(index, message.key.as_str())?;
    let author_id = find_or_create_author(index, message.value.author.as_str())?;
    // the index holds feed sequences in 32 signed bits
    let seq = #[verifier::truncate] (message.value.sequence as i32);
    insert_message(index, seq, offset as i64, key_id, author_id)?;
    Ok(())
}

/// Reads the envelope in `item`, the payload of the frame at `offset`, and indexes
/// it. A payload that holds no envelope (a tombstone, a corrupt frame) is skipped
/// and leaves the index as it was.
pub fn append_item(index: &mut Index, offset: u64, item: &[u8]) -> (r: Result<(), Error>)
    requires
        old(index).wf(),
    ensures
        final(index).wf(),
        final(index).room() >= old(index).room() - 2,
        match envelope_of(item@) {
            None => r is Ok && *final(index) == *old(index),
            Some(env) => match r {
                Ok(_) => final(index).rows() == old(index).rows().push(
                    (offset as int, env.2 as i32 as int, env.0, env.1),
                ),
                Err(e) => e == Error::SqliteAppendError && final(index).rows() == old(
                    index,
                ).rows(),
            },
        },
        old(index).room() >= 2 && offset <= i64::MAX as u64 && (forall|i: int|
            0 <= i < old(index).rows().len() ==> #[trigger] old(index).rows()[i].0 != offset)
            ==> r is Ok,
        envelope_of(item@) is Some && (exists|i: int|
            0 <= i < old(index).rows().len() && #[trigger] old(index).rows()[i].0 == offset)
            ==> r is Err,
{
    match parse_message(item) {
        Some(m) => append_parsed(index, offset, &m),
        None => Ok(()),
    }
}

impl Index {
    /// Row `i`'s author is `a` exactly when its author id is `id`, the id of `a`.
    proof fn lemma_author_match(&self, a: Seq<char>, id: int, i: int)
        requires
            self.wf(),
            0 <= i < self.messages@.len(),
            self.has_author(a) ==> id == self.author_id(a),
            !self.has_author(a) ==> id == 0,
        ensures
            (self.rows()[i].3 == a) == (self.messages@[i].author_id == id),
    {
        assert(self.rows()[i] == self.row(i));
        let m = self.messages@[i];
        if self.rows()[i].3 == a {
            self.lemma_author_unique(a, m.author_id - 1);
        } else if m.author_id == id && self.has_author(a) {
            let j = choose|j: int| 0 <= j < self.authors@.len() && self.authors@[j].author@ == a;
            self.lemma_author_unique(a, j);
        }
    }

    /// Row `i`'s key is `k` exactly when its key id is `id`, the id of `k`.
    proof fn lemma_key_match(&self, k: Seq<char>, id: int, i: int)
        requires
            self.wf(),
            0 <= i < self.messages@.len(),
            self.has_key(k) ==> id == self.key_id(k),
            !self.has_key(k) ==> id == 0,
        ensures
            (self.rows()[i].2 == k) == (self.messages@[i].key_id == id),
    {
        assert(self.rows()[i] == self.row(i));
        let m = self.messages@[i];
        if self.rows()[i].2 == k {
            self.lemma_key_unique(k, m.key_id - 1);
        } else if m.key_id == id && self.has_key(k) {
            let j = choose|j: int| 0 <= j < self.keys@.len() && self.keys@[j].key@ == k;
            self.lemma_key_unique(k, j);
        }
    }
}

/// The offset of the first message (in row order) whose key is `key`.
pub fn find_message_flume_seq_by_key(index: &Index, key: &str) -> (r: Option<u64>)
    requires
        index.wf(),
    ensures
        r is None <==> forall|i: int| 0 <= i < index.rows().len() ==> #[trigger] index.rows()[i].2
            != key@,
        r matches Some(f) ==> exists|i: int|
            0 <= i < index.rows().len() && #[trigger] index.rows()[i].2 == key@ && index.rows()[i].0
                == f && forall|j: int| 0 <= j < i ==> #[trigger] index.rows()[j].2 != key@,
{
    let id: i32 = match index.lookup_key(key) {
        Some(id) => id,
        None => 0,
    };
    let mut i: usize = 0;
    while i < index.messages.len()
        invariant
            index.wf(),
            i <= index.messages@.len(),
            index.has_key(key@) ==> id == index.key_id(key@),
            !index.has_key(key@) ==> id == 0,
            forall|j: int| 0 <= j < i ==> #[trigger] index.rows()[j].2 != key@,
        decreases index.messages@.len() - i,
    {
        proof {
            index.lemma_key_match(key@, id as int, i as int);
        }
        if index.messages[i].key_id == id {
            proof {
                index.lemma_rows_distinct();
                assert(index.rows()[i as int] == index.row(i as int));
            }
            return match index.messages[i].flume_seq {
                Some(f) => Some(f as u64),
                None => None,
            };
        }
        i = i + 1;
    }
    None
}

/// The offset of the first message (in row order) of author `author` with feed
/// sequence `sequence`; `None` where there is none, which is no error.
pub fn find_message_flume_seq_by_author_and_sequence(index: &Index, author: &str, sequence: i32) -> (r:
    Option<i64>)
    requires
        index.wf(),
    ensures
        r is None <==> forall|i: int|
            0 <= i < index.rows().len() ==> !(#[trigger] index.rows()[i].3 == author@
                && index.rows()[i].1 == sequence),
        r matches Some(f) ==> exists|i: int|
            0 <= i < index.rows().len() && #[trigger] index.rows()[i].3 == author@
                && index.rows()[i].1 == sequence && index.rows()[i].0 == f && forall|j: int|
                0 <= j < i ==> !(#[trigger] index.rows()[j].3 == author@ && index.rows()[j].1
                    == sequence),
{
    let id: i32 = match index.lookup_author(author) {
        Some(id) => id,
        None => 0,
    };
    let mut i: usize = 0;
    while i < index.messages.len()
        invariant
            index.wf(),
            i <= index.messages@.len(),
            index.has_author(author@) ==> id == index.author_id(author@),
            !index.has_author(author@) ==> id == 0,
            forall|j: int|
                0 <= j < i ==> !(#[trigger] index.rows()[j].3 == author@ && index.rows()[j].1
                    == sequence),
        decreases index.messages@.len() - i,
    {
        proof {
            index.lemma_author_match(author@, id as int, i as int);
            assert(index.rows()[i as int] == index.row(i as int));
        }
        if index.messages[i].author_id == id && index.messages[i].seq == sequence {
            proof {
                index.lemma_rows_distinct();
            }
            return index.messages[i].flume_seq;
        }
        i = i + 1;
    }
    None
}

/// The largest feed sequence of author `author`; `None` if the author has no rows.
pub fn find_feed_latest_seq(index: &Index, author: &str) -> (r: Option<i32>)
    requires
        index.wf(),
    ensures
        r is None <==> forall|i: int| 0 <= i < index.rows().len() ==> #[trigger] index.rows()[i].3
            != author@,
        r matches Some(s) ==> (exists|i: int|
            0 <= i < index.rows().len() && #[trigger] index.rows()[i].3 == author@
                && index.rows()[i].1 == s) && forall|i: int|
            0 <= i < index.rows().len() && #[trigger] index.rows()[i].3 == author@ ==> index.rows()[i].1
                <= s,
{
    let id: i32 = match index.lookup_author(author) {
        Some(id) => id,
        None => 0,
    };
    let mut best: Option<i32> = None;
    let mut i: usize = 0;
    while i < index.messages.len()
        invariant
            index.wf(),
            i <= index.messages@.len(),
            index.has_author(author@) ==> id == index.author_id(author@),
            !index.has_author(author@) ==> id == 0,
            best is None ==> forall|j: int| 0 <= j < i ==> #[trigger] index.rows()[j].3 != author@,
            best matches Some(s) ==> (exists|j: int|
                0 <= j < i && #[trigger] index.rows()[j].3 == author@ && index.rows()[j].1 == s)
                && forall|j: int|
                0 <= j < i && #[trigger] index.rows()[j].3 == author@ ==> index.rows()[j].1 <= s,
        decreases index.messages@.len() - i,
    {
        proof {
            index.lemma_author_match(author@, id as int, i as int);
            assert(index.rows()[i as int] == index.row(i as int));
        }
        if index.messages[i].author_id == id {
            let s = index.messages[i].seq;
            best = match best {
                None => Some(s),
                Some(b) => if s > b {
                    Some(s)
                } else {
                    Some(b)
                },
            };
        }
        i = i + 1;
    }
    best
}

/// The offsets of author `author`'s messages whose feed sequence is greater than
/// `sequence`, in row order, at most `limit` of them when `limit` is given and not
/// negative.
pub fn find_feed_flume_seqs_newer_than(
    index: &Index,
    author: &str,
    sequence: i32,
    limit: Option<i64>,
) -> (r: Vec<u64>)
    requires
        index.wf(),
    ensures
        r@.map_values(|o: u64| o as int) == limited(
            newer_offsets(index.rows(), author@, sequence as int),
            limit,
        ),
{
    let ghost rows = index.rows();
    let ghost all = newer_offsets(rows, author@, sequence as int);
    let id: i32 = match index.lookup_author(author) {
        Some(id) => id,
        None => 0,
    };
    let mut out: Vec<u64> = Vec::new();
    let mut i: usize = 0;
    proof {
        index.lemma_rows_distinct();
        assert(rows.take(0) =~= Seq::<Row>::empty());
    }
    while i < index.messages.len()
        invariant
            index.wf(),
            rows == index.rows(),
            all == newer_offsets(rows, author@, sequence as int),
            forall|j: int| 0 <= j < rows.len() ==> #[trigger] rows[j].0 >= 0,
            i <= index.messages@.len(),
            index.has_author(author@) ==> id == index.author_id(author@),
            !index.has_author(author@) ==> id == 0,
            out@.map_values(|o: u64| o as int) == newer_offsets(
                rows.take(i as int),
                author@,
                sequence as int,
            ),
            match limit {
                Some(l) => 0 <= l ==> out@.len() <= l,
                None => true,
            },
        decreases index.messages@.len() - i,
    {
        if let Some(l) = limit {
            if l >= 0 && out.len() as i64 >= l {
                proof {
                    lemma_newer_prefix(rows, author@, sequence as int, i as int);
                }
                return out;
            }
        }
        proof {
            index.lemma_author_match(author@, id as int, i as int);
            assert(rows[i as int] == index.row(i as int));
            assert(rows.take(i as int + 1).drop_last() == rows.take(i as int));
            assert(rows.take(i as int + 1).last() == rows[i as int]);
        }
        if index.messages[i].author_id == id && index.messages[i].seq > sequence {
            let f = match index.messages[i].flume_seq {
                Some(f) => f as u64,
                None => 0,
            };
            let ghost before = out@.map_values(|o: u64| o as int);
            out.push(f);
            proof {
                assert(out@.map_values(|o: u64| o as int) =~= before.push(rows[i as int].0));
            }
        }
        i = i + 1;
    }
    proof {
        assert(rows.take(i as int) == rows);
    }
    out
}

} // verus!
