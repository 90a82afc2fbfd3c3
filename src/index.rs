//! The in-memory index: which keys are live, and where each one's latest
//! `Set` record lies.
use vstd::prelude::*;
use vstd::utf8::encode_utf8;

verus! {

/// Where a framed record lies: its log generation, its offset in that file,
/// and its length, 4-byte prefix included.
#[derive(Clone, Copy, Debug, PartialEq, Eq, Structural)]
pub struct CommandPos {
    pub gen: u64,
    pub pos: u64,
    pub len: u64,
}

impl CommandPos {
    /// The position of the record that fills `start..end` of log `gen`.
    pub fn from_range(gen: u64, start: u64, end: u64) -> (r: CommandPos)
        requires
            start <= end,
        ensures
            r == (CommandPos { gen, pos: start, len: (end - start) as u64 }),
    {
        CommandPos { gen, pos: start, len: end - start }
    }
}

/// The sum of the lengths of a sequence of positions.
pub open spec fn lens_sum(s: Seq<CommandPos>) -> int
    decreases s.len(),
{
    if s.len() == 0 {
        0
    } else {
        lens_sum(s.drop_last()) + s.last().len
    }
}

/// `a` sorts before `b` byte by byte, a proper prefix first: the order of
/// `str` on their UTF-8 bytes.
pub open spec fn bytes_lt(a: Seq<u8>, b: Seq<u8>) -> bool
    decreases a.len(),
{
    if a.len() == 0 {
        b.len() > 0
    } else if b.len() == 0 {
        false
    } else if a[0] != b[0] {
        a[0] < b[0]
    } else {
        bytes_lt(a.drop_first(), b.drop_first())
    }
}

/// Key `a` sorts before key `b`, as `String`s compare.
pub open spec fn key_lt(a: Seq<char>, b: Seq<char>) -> bool {
    bytes_lt(encode_utf8(a), encode_utf8(b))
}

proof fn lemma_bytes_lt_trans(a: Seq<u8>, b: Seq<u8>, c: Seq<u8>)
    requires
        bytes_lt(a, b),
        bytes_lt(b, c),
    ensures
        bytes_lt(a, c),
    decreases a.len(),
{
    if a.len() > 0 && a[0] == b[0] && b[0] == c[0] {
        lemma_bytes_lt_trans(a.drop_first(), b.drop_first(), c.drop_first());
    }
}

proof fn lemma_bytes_lt_total(a: Seq<u8>, b: Seq<u8>)
    ensures
        a == b || bytes_lt(a, b) || bytes_lt(b, a),
        !(bytes_lt(a, b) && bytes_lt(b, a)),
        !bytes_lt(a, a),
    decreases a.len(),
{
    if a.len() > 0 && b.len() > 0 && a[0] == b[0] {
        lemma_bytes_lt_total(a.drop_first(), b.drop_first());
        if a.drop_first() == b.drop_first() {
            assert(a =~= seq![a[0]] + a.drop_first());
            assert(b =~= seq![b[0]] + b.drop_first());
        }
    } else if a.len() > 0 {
        lemma_bytes_lt_total(a.drop_first(), a.drop_first());
    } else if b.len() == 0 {
        assert(a =~= b);
    }
}

proof fn lemma_key_lt_total(a: Seq<char>, b: Seq<char>)
    ensures
        a == b || key_lt(a, b) || key_lt(b, a),
        !(key_lt(a, b) && key_lt(b, a)),
        !key_lt(a, a),
{
    lemma_bytes_lt_total(encode_utf8(a), encode_utf8(b));
    lemma_bytes_lt_total(encode_utf8(a), encode_utf8(a));
    if encode_utf8(a) == encode_utf8(b) {
        vstd::utf8::encode_utf8_decode_utf8(a);
        vstd::utf8::encode_utf8_decode_utf8(b);
    }
}

/// Whether `a` sorts before `b`.
fn bytes_less(a: &[u8], b: &[u8]) -> (r: bool)
    ensures
        r == bytes_lt(a@, b@),
{
    let mut i: usize = 0;
    assert(a@.skip(0) =~= a@);
    assert(b@.skip(0) =~= b@);
    while i < a.len() && i < b.len() && a[i] == b[i]
        invariant
            i <= a@.len(),
            i <= b@.len(),
            bytes_lt(a@, b@) == bytes_lt(a@.skip(i as int), b@.skip(i as int)),
        decreases a@.len() - i,
    {
        assert(a@.skip(i as int).drop_first() =~= a@.skip(i + 1));
        assert(b@.skip(i as int).drop_first() =~= b@.skip(i + 1));
        i += 1;
    }
    if i < a.len() && i < b.len() {
        a[i] < b[i]
    } else {
        i == a.len() && i < b.len()
    }
}

/// A map from key to position, kept as a vector of distinct keys in
/// ascending order.
pub struct KvIndex {
    entries: Vec<(String, CommandPos)>,
    model: Ghost<Map<Seq<char>, CommandPos>>,
}

impl View for KvIndex {
    type V = Map<Seq<char>, CommandPos>;

    closed spec fn view(&self) -> Map<Seq<char>, CommandPos> {
        self.model@
    }
}

impl KvIndex {
    /// Keys ascend, so are distinct, and the entries are exactly the map.
    pub closed spec fn wf(&self) -> bool {
        &&& forall|i: int, j: int|
            0 <= i < j < self.entries@.len() ==> key_lt(self.entries@[i].0@, self.entries@[j].0@)
        &&& forall|i: int, j: int|
            0 <= i < j < self.entries@.len() ==> self.entries@[i].0@ != self.entries@[j].0@
        &&& forall|i: int|
            0 <= i < self.entries@.len() ==> #[trigger] self.model@.contains_key(
                self.entries@[i].0@,
            ) && self.model@[self.entries@[i].0@] == self.entries@[i].1
        &&& forall|k: Seq<char>|
            #[trigger] self.model@.contains_key(k) ==> exists|i: int|
                0 <= i < self.entries@.len() && self.entries@[i].0@ == k
    }

    /// The keys in the order in which `retarget` walks them: ascending.
    pub closed spec fn key_order(&self) -> Seq<Seq<char>> {
        self.entries@.map_values(|e: (String, CommandPos)| e.0@)
    }

    /// An empty index.
    pub fn new() -> (r: KvIndex)
        ensures
            r.wf(),
            r@ == Map::<Seq<char>, CommandPos>::empty(),
    {
        KvIndex { entries: Vec::new(), model: Ghost(Map::empty()) }
    }

    fn find(&self, key: &str) -> (r: Option<usize>)
        requires
            self.wf(),
        ensures
            r matches Some(i) ==> i < self.entries@.len() && self.entries@[i as int].0@ == key@,
            r is None ==> !self@.contains_key(key@),
    {
        let k = key.to_owned();
        let mut i: usize = 0;
        while i < self.entries.len()
            invariant
                self.wf(),
                i <= self.entries@.len(),
                k@ == key@,
                forall|j: int| 0 <= j < i ==> self.entries@[j].0@ != key@,
            decreases self.entries@.len() - i,
        {
            if self.entries[i].0 == k {
                return Some(i);
            }
            i += 1;
        }
        None
    }

    /// Where `key`, which is not live, would go: every key before the
    /// result sorts before `key`, every key from it on sorts after.
    fn insertion_point(&self, key: &str) -> (r: usize)
        requires
            self.wf(),
            !self@.contains_key(key@),
        ensures
            r <= self.entries@.len(),
            forall|j: int| 0 <= j < r ==> key_lt(#[trigger] self.entries@[j].0@, key@),
            forall|j: int| r <= j < self.entries@.len() ==> key_lt(key@, #[trigger] self.entries@[j].0@),
    {
        let kb = key.as_bytes();
        let mut i: usize = 0;
        while i < self.entries.len()
            invariant
                self.wf(),
                !self@.contains_key(key@),
                kb@ == encode_utf8(key@),
                i <= self.entries@.len(),
                forall|j: int| 0 <= j < i ==> key_lt(#[trigger] self.entries@[j].0@, key@),
            decreases self.entries@.len() - i,
        {
            if bytes_less(kb, self.entries[i].0.as_str().as_bytes()) {
                proof {
                    assert forall|j: int| i <= j < self.entries@.len() implies key_lt(
                        key@,
                        #[trigger] self.entries@[j].0@,
                    ) by {
                        if j > i {
                            assert(key_lt(self.entries@[i as int].0@, self.entries@[j].0@));
                            lemma_bytes_lt_trans(
                                encode_utf8(key@),
                                encode_utf8(self.entries@[i as int].0@),
                                encode_utf8(self.entries@[j].0@),
                            );
                        }
                    }
                }
                return i;
            }
            proof {
                assert(self.model@.contains_key(self.entries@[i as int].0@));
                lemma_key_lt_total(self.entries@[i as int].0@, key@);
            }
            i += 1;
        }
        i
    }

    /// The number of live keys.
    pub fn len(&self) -> (r: usize)
        requires
            self.wf(),
        ensures
            r == self@.len(),
    {
        proof {
            self.lemma_len();
        }
        self.entries.len()
    }

    proof fn lemma_len(&self)
        requires
            self.wf(),
        ensures
            self.entries@.len() == self@.len(),
            self@.dom() == self.key_order().to_set(),
            self.key_order().no_duplicates(),
            self.key_order().len() == self.entries@.len(),
    {
        let ks = self.key_order();
        assert(self@.dom() =~= ks.to_set()) by {
            assert forall|k: Seq<char>| self@.dom().contains(k) implies ks.to_set().contains(k) by {
                let i = choose|i: int| 0 <= i < self.entries@.len() && self.entries@[i].0@ == k;
                assert(ks[i] == k);
            }
        }
        assert(ks.no_duplicates());
        ks.unique_seq_to_set();
    }

    /// The position of `key`, if it is live.
    pub fn get(&self, key: &str) -> (r: Option<CommandPos>)
        requires
            self.wf(),
        ensures
            r == (if self@.contains_key(key@) {
                Some(self@[key@])
            } else {
                None
            }),
    {
        match self.find(key) {
            Some(i) => Some(self.entries[i].1),
            None => None,
        }
    }

    /// Whether `key` is live.
    pub fn contains_key(&self, key: &str) -> (r: bool)
        requires
            self.wf(),
        ensures
            r == self@.contains_key(key@),
    {
        self.find(key).is_some()
    }

    /// Binds `key` to `p`; returns its previous position.
    pub fn insert(&mut self, key: String, p: CommandPos) -> (r: Option<CommandPos>)
        requires
            old(self).wf(),
        ensures
            final(self).wf(),
            final(self)@ == old(self)@.insert(key@, p),
            r == (if old(self)@.contains_key(key@) {
                Some(old(self)@[key@])
            } else {
                None
            }),
    {
        let ghost k = key@;
        match self.find(key.as_str()) {
            Some(i) => {
                let prev = self.entries[i].1;
                self.entries.set(i, (key, p));
                self.model = Ghost(self.model@.insert(k, p));
                proof {
                    assert forall|j: int| 0 <= j < self.entries@.len() implies
                        #[trigger] self.entries@[j].0@ == old(self).entries@[j].0@ by {}
                    assert forall|m: Seq<char>| #[trigger]
                        self.model@.contains_key(m) implies exists|j: int|
                        0 <= j < self.entries@.len() && self.entries@[j].0@ == m by {
                        if m != k {
                            let j = choose|j: int|
                                0 <= j < old(self).entries@.len() && old(self).entries@[j].0@ == m;
                            assert(self.entries@[j].0@ == m);
                        } else {
                            assert(self.entries@[i as int].0@ == m);
                        }
                    }
                    assert forall|j: int| 0 <= j < self.entries@.len() implies
                        #[trigger] self.model@.contains_key(self.entries@[j].0@)
                        && self.model@[self.entries@[j].0@] == self.entries@[j].1 by {
                        if j != i {
                            assert(old(self).entries@[j].0@ != old(self).entries@[i as int].0@);
                        }
                    }
                }
                Some(prev)
            },
            None => {
                let at = self.insertion_point(key.as_str());
                let ghost olde = self.entries@;
                self.entries.insert(at, (key, p));
                self.model = Ghost(self.model@.insert(k, p));
                proof {
                    assert forall|j: int| 0 <= j < self.entries@.len() implies #[trigger] self.entries@[j]
                        == (if j < at {
                        olde[j]
                    } else if j == at {
                        (self.entries@[j].0, p)
                    } else {
                        olde[j - 1]
                    }) by {}
                    assert(self.entries@[at as int].0@ == k);
                    assert forall|m: Seq<char>| #[trigger]
                        self.model@.contains_key(m) implies exists|j: int|
                        0 <= j < self.entries@.len() && self.entries@[j].0@ == m by {
                        if m != k {
                            let j = choose|j: int| 0 <= j < olde.len() && olde[j].0@ == m;
                            if j < at {
                                assert(self.entries@[j].0@ == m);
                            } else {
                                assert(self.entries@[j + 1].0@ == m);
                            }
                        } else {
                            assert(self.entries@[at as int].0@ == m);
                        }
                    }
                    assert forall|a: int, b: int|
                        0 <= a < b < self.entries@.len() implies key_lt(
                        self.entries@[a].0@,
                        self.entries@[b].0@,
                    ) by {
                        if a < at && b > at {
                            lemma_bytes_lt_trans(
                                encode_utf8(olde[a].0@),
                                encode_utf8(k),
                                encode_utf8(olde[b - 1].0@),
                            );
                        }
                    }
                    assert forall|a: int, b: int|
                        0 <= a < b < self.entries@.len() implies self.entries@[a].0@
                        != self.entries@[b].0@ by {
                        lemma_key_lt_total(self.entries@[a].0@, self.entries@[b].0@);
                    }
                    assert forall|j: int| 0 <= j < self.entries@.len() implies
                        #[trigger] self.model@.contains_key(self.entries@[j].0@)
                        && self.model@[self.entries@[j].0@] == self.entries@[j].1 by {
                        if j < at {
                            assert(old(self).model@.contains_key(olde[j].0@));
                        } else if j > at {
                            assert(old(self).model@.contains_key(olde[j - 1].0@));
                        }
                    }
                }
                None
            },
        }
    }

    /// Unbinds `key`; returns its previous position.
    pub fn remove(&mut self, key: &str) -> (r: Option<CommandPos>)
        requires
            old(self).wf(),
        ensures
            final(self).wf(),
            final(self)@ == old(self)@.remove(key@),
            r == (if old(self)@.contains_key(key@) {
                Some(old(self)@[key@])
            } else {
                None
            }),
    {
        match self.find(key) {
            Some(i) => {
                let ghost olde = self.entries@;
                let (_, prev) = self.entries.remove(i);
                self.model = Ghost(self.model@.remove(key@));
                proof {
                    assert forall|j: int| 0 <= j < self.entries@.len() implies
                        #[trigger] self.entries@[j] == (if j < i { olde[j] } else { olde[j + 1] }) by {}
                    assert forall|m: Seq<char>| #[trigger]
                        self.model@.contains_key(m) implies exists|j: int|
                        0 <= j < self.entries@.len() && self.entries@[j].0@ == m by {
                        let j = choose|j: int| 0 <= j < olde.len() && olde[j].0@ == m;
                        if j < i {
                            assert(self.entries@[j].0@ == m);
                        } else {
                            assert(j != i);
                            assert(self.entries@[j - 1].0@ == m);
                        }
                    }
                    assert forall|j: int| 0 <= j < self.entries@.len() implies
                        #[trigger] self.model@.contains_key(self.entries@[j].0@)
                        && self.model@[self.entries@[j].0@] == self.entries@[j].1 by {
                        if j < i {
                            assert(olde[j].0@ != olde[i as int].0@);
                        } else {
                            assert(olde[j + 1].0@ != olde[i as int].0@);
                        }
                    }
                }
                Some(prev)
            },
            None => {
                assert(self.model@.remove(key@) =~= self.model@);
                None
            },
        }
    }
}

proof fn lemma_lens_sum_step(s: Seq<CommandPos>, i: int)
    requires
        0 <= i < s.len(),
    ensures
        lens_sum(s.take(i + 1)) == lens_sum(s.take(i)) + s[i].len,
{
    assert(s.take(i + 1).drop_last() =~= s.take(i));
}

impl KvIndex {
    /// The positions of the live keys, in the order of `key_order`.
    pub open spec fn positions(&self) -> Seq<CommandPos> {
        self.key_order().map_values(|k: Seq<char>| self@[k])
    }

    /// The keys in walk order ascend and are exactly the live keys.
    pub proof fn lemma_key_order(&self)
        requires
            self.wf(),
        ensures
            self.key_order().no_duplicates(),
            self.key_order().to_set() == self@.dom(),
            self.key_order().len() == self@.len(),
            forall|i: int, j: int|
                0 <= i < j < self.key_order().len() ==> key_lt(
                    #[trigger] self.key_order()[i],
                    #[trigger] self.key_order()[j],
                ),
    {
        self.lemma_len();
        assert forall|i: int, j: int| 0 <= i < j < self.key_order().len() implies key_lt(
            #[trigger] self.key_order()[i],
            #[trigger] self.key_order()[j],
        ) by {
            assert(key_lt(self.entries@[i].0@, self.entries@[j].0@));
        }
    }

    /// The positions of the live keys in walk order, or `None` where their
    /// lengths do not sum to a `u64`.
    pub fn live_copies(&self) -> (r: Option<Vec<CommandPos>>)
        requires
            self.wf(),
        ensures
            r is None <==> lens_sum(self.positions()) > u64::MAX,
            r matches Some(v) ==> v@ == self.positions(),
    {
        let ghost ps = self.positions();
        let n = self.entries.len();
        assert(ps.len() == n);
        let mut plan: Vec<CommandPos> = Vec::new();
        let mut total: u64 = 0;
        let mut i: usize = 0;
        while i < n
            invariant
                n == self.entries@.len(),
                self.wf(),
                ps == self.positions(),
                ps.len() == n,
                i <= n,
                plan@ == ps.take(i as int),
                total == lens_sum(plan@),
            decreases n - i,
        {
            let p = self.entries[i].1;
            proof {
                assert(self.entries@[i as int].0@ == self.key_order()[i as int]);
                assert(self.model@.contains_key(self.entries@[i as int].0@));
                assert(ps[i as int] == p);
                lemma_lens_sum_step(ps, i as int);
                assert(ps.take(i as int + 1) =~= plan@.push(p));
            }
            match total.checked_add(p.len) {
                Some(t) => {
                    total = t;
                },
                None => {
                    proof {
                        lemma_lens_sum_prefix(ps, i as int + 1);
                    }
                    return None;
                },
            }
            plan.push(p);
            i += 1;
        }
        proof {
            assert(ps.take(n as int) =~= ps);
        }
        Some(plan)
    }

    /// Lays every live record out back to back, from offset 0, in log `gen`,
    /// in walk order, and points the index there. Returns the old positions
    /// in that order: record `i` of the new log is a copy of the bytes at
    /// the `i`-th of them. Returns `None`, and changes nothing, where the
    /// live bytes do not fit in a `u64`.
    pub fn retarget(&mut self, gen: u64) -> (r: Option<Vec<CommandPos>>)
        requires
            old(self).wf(),
        ensures
            final(self).wf(),
            final(self).key_order() == old(self).key_order(),
            r is None <==> lens_sum(old(self).positions()) > u64::MAX,
            r is None ==> final(self)@ == old(self)@,
            r matches Some(plan) ==> {
                &&& plan@ == old(self).positions()
                &&& final(self)@.dom() == old(self)@.dom()
                &&& forall|i: int|
                    0 <= i < plan@.len() ==> #[trigger] final(self)@[old(self).key_order()[i]] == (
                    CommandPos { gen, pos: lens_sum(plan@.take(i)) as u64, len: plan@[i].len })
            },
    {
        let ghost ps = self.positions();
        let n = self.entries.len();
        assert(ps.len() == n);
        let mut plan: Vec<CommandPos> = Vec::new();
        let mut total: u64 = 0;
        let mut i: usize = 0;
        while i < n
            invariant
                n == self.entries@.len(),
                self.wf(),
                ps == self.positions(),
                i <= n,
                plan@ == ps.take(i as int),
                total == lens_sum(plan@),
            decreases n - i,
        {
            let p = self.entries[i].1;
            proof {
                assert(self.entries@[i as int].0@ == self.key_order()[i as int]);
                assert(self.model@.contains_key(self.entries@[i as int].0@));
                assert(ps[i as int] == p);
                lemma_lens_sum_step(ps, i as int);
                assert(ps.take(i as int + 1) =~= plan@.push(p));
            }
            match total.checked_add(p.len) {
                Some(t) => {
                    total = t;
                },
                None => {
                    proof {
                        lemma_lens_sum_prefix(ps, i as int + 1);
                    }
                    return None;
                },
            }
            plan.push(p);
            i += 1;
        }
        proof {
            assert(ps.take(n as int) =~= ps);
        }
        let mut off: u64 = 0;
        let mut j: usize = 0;
        let ghost old_self = *self;
        assert forall|m: int| 0 <= m < n implies #[trigger] self.entries@[m].1 == ps[m] by {
            assert(self.entries@[m].0@ == self.key_order()[m]);
            assert(self.model@.contains_key(self.entries@[m].0@));
        }
        while j < n
            invariant
                n == self.entries@.len(),
                self.wf(),
                self.key_order() == old_self.key_order(),
                self@.dom() == old_self@.dom(),
                plan@ == ps,
                ps.len() == n,
                forall|m: int| 0 <= m < n ==> #[trigger] ps[m] == old_self@[old_self.key_order()[m]],
                lens_sum(ps) <= u64::MAX,
                j <= n,
                off == lens_sum(ps.take(j as int)),
                forall|m: int| j <= m < n ==> #[trigger] self.entries@[m].1 == ps[m],
                forall|m: int|
                    0 <= m < j ==> #[trigger] self.entries@[m].1 == (CommandPos {
                        gen,
                        pos: lens_sum(ps.take(m)) as u64,
                        len: ps[m].len,
                    }),
            decreases n - j,
        {
            let k = self.entries[j].0.clone();
            let p = self.entries[j].1;
            let np = CommandPos { gen, pos: off, len: p.len };
            proof {
                lemma_lens_sum_step(ps, j as int);
                lemma_lens_sum_prefix(ps, j as int + 1);
            }
            let ghost before = self.entries@;
            let ghost before_model = self.model@;
            assert forall|x: int| 0 <= x < n implies before_model.contains_key(#[trigger] before[x].0@)
                && before_model[before[x].0@] == before[x].1 by {
                assert(self.model@.contains_key(self.entries@[x].0@));
            }
            self.entries.set(j, (k, np));
            self.model = Ghost(self.model@.insert(k@, np));
            proof {
                assert forall|m: int| 0 <= m < n implies #[trigger] self.entries@[m].0@
                    == before[m].0@ by {}
                assert(self.key_order() =~= old_self.key_order());
                assert forall|m: Seq<char>| #[trigger]
                    self.model@.contains_key(m) implies exists|x: int|
                    0 <= x < self.entries@.len() && self.entries@[x].0@ == m by {
                    let x = choose|x: int| 0 <= x < before.len() && before[x].0@ == m;
                    assert(self.entries@[x].0@ == m);
                }
                assert forall|x: int| 0 <= x < self.entries@.len() implies
                    #[trigger] self.model@.contains_key(self.entries@[x].0@)
                    && self.model@[self.entries@[x].0@] == self.entries@[x].1 by {
                    if x != j {
                        assert(before[x].0@ != before[j as int].0@);
                    }
                }
                assert(self@.dom() =~= old_self@.dom());
            }
            off = off + p.len;
            j += 1;
        }
        proof {
            assert forall|i: int| 0 <= i < plan@.len() implies #[trigger] self@[old_self.key_order()[i]]
                == (CommandPos { gen, pos: lens_sum(plan@.take(i)) as u64, len: plan@[i].len }) by {
                assert(self.entries@[i].0@ == self.key_order()[i]);
                assert(self.model@.contains_key(self.entries@[i].0@));
            }
        }
        Some(plan)
    }
}

proof fn lemma_lens_sum_prefix(s: Seq<CommandPos>, i: int)
    requires
        0 <= i <= s.len(),
    ensures
        lens_sum(s.take(i)) <= lens_sum(s),
    decreases s.len() - i,
{
    if i < s.len() {
        lemma_lens_sum_step(s, i);
        lemma_lens_sum_prefix(s, i + 1);
    } else {
        assert(s.take(i) =~= s);
    }
}

} // verus!
