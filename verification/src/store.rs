//! The in-memory key-value state machine that committed Raft entries drive.
use vstd::prelude::*;
use vstd::utf8::encode_utf8;

verus! {

/// Strict lexicographic order on byte strings: the order of `str`.
pub open spec fn bytes_lt(a: Seq<u8>, b: Seq<u8>) -> bool
    decreases a.len(),
{
    if a.len() == 0 {
        b.len() > 0
    } else if b.len() == 0 {
        false
    } else if a[0] != b[0] {
        a[0] < b[0]
    } else {
        bytes_lt(a.drop_first(), b.drop_first())
    }
}

/// Whether the text `k` starts with the text `prefix`, byte for byte.
pub open spec fn has_prefix(k: Seq<char>, prefix: Seq<char>) -> bool {
    encode_utf8(prefix).is_prefix_of(encode_utf8(k))
}

/// Whether the text `a` sorts before the text `b`.
pub open spec fn text_lt(a: Seq<char>, b: Seq<char>) -> bool {
    bytes_lt(encode_utf8(a), encode_utf8(b))
}

/// No two pairs hold the same key.
pub open spec fn keys_distinct(s: Seq<(String, String)>) -> bool {
    forall|i: int, j: int| 0 <= i < j < s.len() ==> s[i].0@ != s[j].0@
}

pub open spec fn has_key(s: Seq<(String, String)>, k: Seq<char>) -> bool {
    exists|i: int| 0 <= i < s.len() && s[i].0@ == k
}

pub open spec fn index_of_key(s: Seq<(String, String)>, k: Seq<char>) -> int {
    choose|i: int| 0 <= i < s.len() && s[i].0@ == k
}

/// The map that a sequence of pairs with distinct keys stands for.
pub open spec fn pairs_view(s: Seq<(String, String)>) -> Map<Seq<char>, Seq<char>> {
    Map::new(|k: Seq<char>| has_key(s, k), |k: Seq<char>| s[index_of_key(s, k)].1@)
}

/// The map that results from inserting the pairs in order (later pairs win).
pub open spec fn map_of_pairs(s: Seq<(String, String)>) -> Map<Seq<char>, Seq<char>>
    decreases s.len(),
{
    if s.len() == 0 {
        Map::empty()
    } else {
        map_of_pairs(s.drop_last()).insert(s.last().0@, s.last().1@)
    }
}

pub struct KvStore {
    data: Vec<(String, String)>,
}

impl KvStore {
    #[verifier::type_invariant]
    spec fn inv(self) -> bool {
        keys_distinct(self.data@)
    }
}

impl View for KvStore {
    type V = Map<Seq<char>, Seq<char>>;

    closed spec fn view(&self) -> Map<Seq<char>, Seq<char>> {
        pairs_view(self.data@)
    }
}

proof fn lemma_index_of_key(s: Seq<(String, String)>, i: int)
    requires
        keys_distinct(s),
        0 <= i < s.len(),
    ensures
        index_of_key(s, s[i].0@) == i,
        has_key(s, s[i].0@),
        pairs_view(s).contains_key(s[i].0@),
        pairs_view(s)[s[i].0@] == s[i].1@,
{
    assert(has_key(s, s[i].0@));
    let j = index_of_key(s, s[i].0@);
    if j < i {
        assert(s[j].0@ != s[i].0@);
    }
    if i < j {
        assert(s[i].0@ != s[j].0@);
    }
}

/// Replacing the value at the position of a key updates that key in the map.
proof fn lemma_update_view(s: Seq<(String, String)>, i: int, p: (String, String))
    requires
        keys_distinct(s),
        0 <= i < s.len(),
        p.0@ == s[i].0@,
    ensures
        keys_distinct(s.update(i, p)),
        pairs_view(s.update(i, p)) == pairs_view(s).insert(p.0@, p.1@),
{
    let t = s.update(i, p);
    assert forall|a: int, b: int| 0 <= a < b < t.len() implies t[a].0@ != t[b].0@ by {
        assert(s[a].0@ != s[b].0@);
    }
    assert forall|k: Seq<char>| #[trigger] has_key(t, k) == has_key(s, k) by {
        if has_key(t, k) {
            let j = choose|j: int| 0 <= j < t.len() && t[j].0@ == k;
            assert(s[j].0@ == k);
        }
        if has_key(s, k) {
            let j = choose|j: int| 0 <= j < s.len() && s[j].0@ == k;
            assert(t[j].0@ == k);
        }
    }
    assert forall|k: Seq<char>| has_key(t, k) implies #[trigger] pairs_view(t)[k] == pairs_view(
        s,
    ).insert(p.0@, p.1@)[k] by {
        let j = choose|j: int| 0 <= j < t.len() && t[j].0@ == k;
        lemma_index_of_key(t, j);
        lemma_index_of_key(s, j);
    }
    assert(pairs_view(t) =~= pairs_view(s).insert(p.0@, p.1@));
}

/// Appending a pair with a new key inserts that key in the map.
proof fn lemma_push_view(s: Seq<(String, String)>, p: (String, String))
    requires
        keys_distinct(s),
        !has_key(s, p.0@),
    ensures
        keys_distinct(s.push(p)),
        pairs_view(s.push(p)) == pairs_view(s).insert(p.0@, p.1@),
{
    let t = s.push(p);
    assert forall|a: int, b: int| 0 <= a < b < t.len() implies t[a].0@ != t[b].0@ by {
        if b < s.len() {
            assert(s[a].0@ != s[b].0@);
        } else {
            assert(t[a] == s[a]);
        }
    }
    assert forall|k: Seq<char>| #[trigger] has_key(t, k) == (has_key(s, k) || k == p.0@) by {
        if has_key(t, k) {
            let j = choose|j: int| 0 <= j < t.len() && t[j].0@ == k;
            if j < s.len() {
                assert(s[j].0@ == k);
            }
        }
        if has_key(s, k) {
            let j = choose|j: int| 0 <= j < s.len() && s[j].0@ == k;
            assert(t[j].0@ == k);
        }
        if k == p.0@ {
            assert(t[s.len() as int].0@ == k);
        }
    }
    assert forall|k: Seq<char>| has_key(t, k) implies #[trigger] pairs_view(t)[k] == pairs_view(
        s,
    ).insert(p.0@, p.1@)[k] by {
        let j = choose|j: int| 0 <= j < t.len() && t[j].0@ == k;
        lemma_index_of_key(t, j);
        if j < s.len() {
            lemma_index_of_key(s, j);
        }
    }
    assert(pairs_view(t) =~= pairs_view(s).insert(p.0@, p.1@));
}

/// Removing the pair at the position of a key removes that key from the map.
proof fn lemma_remove_view(s: Seq<(String, String)>, i: int)
    requires
        keys_distinct(s),
        0 <= i < s.len(),
    ensures
        keys_distinct(s.remove(i)),
        pairs_view(s.remove(i)) == pairs_view(s).remove(s[i].0@),
{
    let t = s.remove(i);
    let old_index = |j: int| if j < i { j } else { j + 1 };
    assert forall|j: int| 0 <= j < t.len() implies #[trigger] t[j] == s[old_index(j)] by {}
    assert forall|a: int, b: int| 0 <= a < b < t.len() implies t[a].0@ != t[b].0@ by {
        assert(t[a] == s[old_index(a)]);
        assert(t[b] == s[old_index(b)]);
        assert(s[old_index(a)].0@ != s[old_index(b)].0@);
    }
    assert forall|k: Seq<char>| #[trigger] has_key(t, k) == (has_key(s, k) && k != s[i].0@) by {
        if has_key(t, k) {
            let j = choose|j: int| 0 <= j < t.len() && t[j].0@ == k;
            assert(t[j] == s[old_index(j)]);
            assert(s[old_index(j)].0@ != s[i].0@);
        }
        if has_key(s, k) && k != s[i].0@ {
            let j = choose|j: int| 0 <= j < s.len() && s[j].0@ == k;
            if j < i {
                assert(t[j] == s[j]);
            } else {
                assert(t[j - 1] == s[j]);
            }
        }
    }
    assert forall|k: Seq<char>| has_key(t, k) implies #[trigger] pairs_view(t)[k] == pairs_view(
        s,
    )[k] by {
        let j = choose|j: int| 0 <= j < t.len() && t[j].0@ == k;
        lemma_index_of_key(t, j);
        assert(t[j] == s[old_index(j)]);
        lemma_index_of_key(s, old_index(j));
    }
    assert(pairs_view(t) =~= pairs_view(s).remove(s[i].0@));
}

/// Whether two texts are equal, compared byte for byte.
fn str_eq(a: &str, b: &str) -> (r: bool)
    ensures
        r == (a@ == b@),
{
    let x = a.as_bytes();
    let y = b.as_bytes();
    proof {
        vstd::utf8::encode_utf8_decode_utf8(a@);
        vstd::utf8::encode_utf8_decode_utf8(b@);
    }
    if x.len() != y.len() {
        return false;
    }
    let mut i: usize = 0;
    while i < x.len()
        invariant
            x@ == encode_utf8(a@),
            y@ == encode_utf8(b@),
            x@.len() == y@.len(),
            i <= x@.len(),
            forall|j: int| 0 <= j < i ==> x@[j] == y@[j],
        decreases x.len() - i,
    {
        if x[i] != y[i] {
            return false;
        }
        i = i + 1;
    }
    assert(x@ =~= y@);
    true
}


proof fn lemma_bytes_lt_irreflexive(a: Seq<u8>)
    ensures
        !bytes_lt(a, a),
    decreases a.len(),
{
    if a.len() > 0 {
        lemma_bytes_lt_irreflexive(a.drop_first());
    }
}

proof fn lemma_bytes_lt_transitive(a: Seq<u8>, b: Seq<u8>, c: Seq<u8>)
    requires
        bytes_lt(a, b),
        bytes_lt(b, c),
    ensures
        bytes_lt(a, c),
    decreases a.len(),
{
    if a.len() > 0 && b.len() > 0 && c.len() > 0 && a[0] == b[0] && b[0] == c[0] {
        lemma_bytes_lt_transitive(a.drop_first(), b.drop_first(), c.drop_first());
    }
}

proof fn lemma_bytes_lt_total(a: Seq<u8>, b: Seq<u8>)
    requires
        a != b,
    ensures
        bytes_lt(a, b) || bytes_lt(b, a),
    decreases a.len(),
{
    if a.len() > 0 && b.len() > 0 && a[0] == b[0] {
        if a.drop_first() == b.drop_first() {
            assert(a =~= seq![a[0]] + a.drop_first());
            assert(b =~= seq![b[0]] + b.drop_first());
        }
        lemma_bytes_lt_total(a.drop_first(), b.drop_first());
    } else if a.len() == 0 && b.len() == 0 {
        assert(a =~= b);
    }
}

proof fn lemma_bytes_lt_asymmetric(a: Seq<u8>, b: Seq<u8>)
    requires
        bytes_lt(a, b),
    ensures
        !bytes_lt(b, a),
    decreases a.len(),
{
    if a.len() > 0 && b.len() > 0 && a[0] == b[0] {
        lemma_bytes_lt_asymmetric(a.drop_first(), b.drop_first());
    }
}

/// Different texts have different encodings.
proof fn lemma_encode_injective(a: Seq<char>, b: Seq<char>)
    requires
        a != b,
    ensures
        encode_utf8(a) != encode_utf8(b),
{
    vstd::utf8::encode_utf8_decode_utf8(a);
    vstd::utf8::encode_utf8_decode_utf8(b);
}

/// With distinct keys, inserting the pairs in order builds the map they stand for.
proof fn lemma_map_of_pairs(s: Seq<(String, String)>)
    requires
        keys_distinct(s),
    ensures
        map_of_pairs(s) == pairs_view(s),
    decreases s.len(),
{
    if s.len() == 0 {
        assert(pairs_view(s) =~= Map::<Seq<char>, Seq<char>>::empty());
    } else {
        let t = s.drop_last();
        assert(keys_distinct(t));
        lemma_map_of_pairs(t);
        assert(!has_key(t, s.last().0@)) by {
            if has_key(t, s.last().0@) {
                let j = choose|j: int| 0 <= j < t.len() && t[j].0@ == s.last().0@;
                assert(s[j].0@ != s[s.len() - 1].0@);
            }
        }
        lemma_push_view(t, s.last());
        assert(t.push(s.last()) =~= s);
    }
}

/// With distinct keys, the map has as many keys as there are pairs.
proof fn lemma_view_len(s: Seq<(String, String)>)
    requires
        keys_distinct(s),
    ensures
        pairs_view(s).dom().finite(),
        pairs_view(s).len() == s.len(),
{
    let ks = s.map_values(|p: (String, String)| p.0@);
    assert forall|i: int, j: int| 0 <= i < ks.len() && 0 <= j < ks.len() && i != j implies ks[i]
        != ks[j] by {
        if i < j {
            assert(s[i].0@ != s[j].0@);
        } else {
            assert(s[j].0@ != s[i].0@);
        }
    }
    assert(ks.no_duplicates());
    ks.unique_seq_to_set();
    assert forall|k: Seq<char>| #[trigger] ks.to_set().contains(k) == has_key(s, k) by {
        if has_key(s, k) {
            let j = choose|j: int| 0 <= j < s.len() && s[j].0@ == k;
            assert(ks[j] == k);
        }
        if ks.to_set().contains(k) {
            let j = choose|j: int| 0 <= j < ks.len() && ks[j] == k;
            assert(s[j].0@ == k);
        }
    }
    assert(ks.to_set() =~= pairs_view(s).dom());
}

/// Whether `a` sorts before `b`, comparing their bytes.
fn text_less(a: &str, b: &str) -> (r: bool)
    ensures
        r == text_lt(a@, b@),
{
    let x = a.as_bytes();
    let y = b.as_bytes();
    let mut i: usize = 0;
    assert(x@.skip(0) =~= x@);
    assert(y@.skip(0) =~= y@);
    while i < x.len() && i < y.len()
        invariant
            x@ == encode_utf8(a@),
            y@ == encode_utf8(b@),
            i <= x@.len(),
            i <= y@.len(),
            bytes_lt(x@, y@) == bytes_lt(x@.skip(i as int), y@.skip(i as int)),
        decreases x.len() - i,
    {
        if x[i] != y[i] {
            assert(x@.skip(i as int)[0] == x@[i as int]);
            assert(y@.skip(i as int)[0] == y@[i as int]);
            return x[i] < y[i];
        }
        assert(x@.skip(i as int).drop_first() =~= x@.skip(i + 1));
        assert(y@.skip(i as int).drop_first() =~= y@.skip(i + 1));
        i = i + 1;
    }
    x.len() - i < y.len() - i
}

/// Whether the text `s` starts with `prefix`, byte for byte.
fn text_starts_with(s: &str, prefix: &str) -> (r: bool)
    ensures
        r == has_prefix(s@, prefix@),
{
    let x = s.as_bytes();
    let p = prefix.as_bytes();
    if p.len() > x.len() {
        return false;
    }
    let mut i: usize = 0;
    while i < p.len()
        invariant
            x@ == encode_utf8(s@),
            p@ == encode_utf8(prefix@),
            p@.len() <= x@.len(),
            i <= p@.len(),
            forall|j: int| 0 <= j < i ==> p@[j] == x@[j],
        decreases p.len() - i,
    {
        if p[i] != x[i] {
            return false;
        }
        i = i + 1;
    }
    assert(p@ =~= x@.subrange(0, p@.len() as int));
    true
}


/// Keys in strictly ascending order.
pub open spec fn sorted_by_key(r: Seq<(&String, &String)>) -> bool {
    forall|i: int, j: int| 0 <= i < j < r.len() ==> text_lt(r[i].0@, r[j].0@)
}

/// Insert (`key`, `value`) where it keeps the keys in ascending order; returns
/// the position.
fn insert_sorted<'a>(r: &mut Vec<(&'a String, &'a String)>, key: &'a String, value: &'a String) -> (p: usize)
    requires
        sorted_by_key(old(r)@),
        forall|i: int| 0 <= i < old(r)@.len() ==> #[trigger] old(r)@[i].0@ != key@,
    ensures
        p <= old(r)@.len(),
        final(r)@ == old(r)@.insert(p as int, (key, value)),
        sorted_by_key(final(r)@),
{
    let mut p: usize = 0;
    while p < r.len() && text_less(r[p].0.as_str(), key.as_str())
        invariant
            p <= r@.len(),
            forall|i: int| 0 <= i < p ==> text_lt(#[trigger] r@[i].0@, key@),
        decreases r.len() - p,
    {
        p = p + 1;
    }
    let ghost r0 = r@;
    proof {
        if p < r0.len() {
            let a: int = p as int;
            lemma_encode_injective(r0[a].0@, key@);
            lemma_bytes_lt_total(encode_utf8(r0[a].0@), encode_utf8(key@));
        }
    }
    r.insert(p, (key, value));
    proof {
        assert forall|i: int, j: int| 0 <= i < j < r@.len() implies text_lt(r@[i].0@, r@[j].0@) by {
            if j < p {
                assert(r@[i] == r0[i] && r@[j] == r0[j]);
            } else if j == p {
                assert(r@[i] == r0[i]);
            } else if i < p {
                assert(r@[i] == r0[i] && r@[j] == r0[j - 1]);
                let pp: int = p as int;
                lemma_bytes_lt_transitive(
                    encode_utf8(r0[i].0@),
                    encode_utf8(key@),
                    encode_utf8(r0[pp].0@),
                );
                if j - 1 > pp {
                    let jj: int = j - 1;
                    assert(text_lt(r0[pp].0@, r0[jj].0@));
                    lemma_bytes_lt_transitive(
                        encode_utf8(r0[i].0@),
                        encode_utf8(r0[pp].0@),
                        encode_utf8(r0[j - 1].0@),
                    );
                }
            } else if i == p {
                assert(r@[j] == r0[j - 1]);
                let pp: int = p as int;
                if j - 1 > pp {
                    let jj: int = j - 1;
                    assert(text_lt(r0[pp].0@, r0[jj].0@));
                    lemma_bytes_lt_transitive(
                        encode_utf8(key@),
                        encode_utf8(r0[pp].0@),
                        encode_utf8(r0[j - 1].0@),
                    );
                }
            } else {
                assert(r@[i] == r0[i - 1] && r@[j] == r0[j - 1]);
            }
        }
    }
    p
}

impl KvStore {
    pub fn new() -> (r: Self)
        ensures
            r@ == Map::<Seq<char>, Seq<char>>::empty(),
    {
        let r = KvStore { data: Vec::new() };
        assert(r@ =~= Map::<Seq<char>, Seq<char>>::empty());
        r
    }

    /// Position of `key` in the pairs, if it is there.
    fn find(&self, key: &str) -> (r: Option<usize>)
        ensures
            match r {
                Some(i) => i < self.data@.len() && self.data@[i as int].0@ == key@,
                None => !has_key(self.data@, key@),
            },
    {
        let mut i: usize = 0;
        while i < self.data.len()
            invariant
                i <= self.data@.len(),
                forall|j: int| 0 <= j < i ==> self.data@[j].0@ != key@,
            decreases self.data.len() - i,
        {
            if str_eq(self.data[i].0.as_str(), key) {
                return Some(i);
            }
            i = i + 1;
        }
        None
    }

    /// The value of `key`, or `None` when the key is absent.
    pub fn get(&self, key: &str) -> (r: Option<&String>)
        ensures
            match r {
                Some(v) => self@.contains_key(key@) && v@ == self@[key@],
                None => !self@.contains_key(key@),
            },
    {
        proof {
            use_type_invariant(self);
        }
        match self.find(key) {
            Some(i) => {
                proof {
                    lemma_index_of_key(self.data@, i as int);
                }
                Some(&self.data[i].1)
            },
            None => None,
        }
    }

    /// Insert `key` with `value`, replacing any earlier value.
    pub fn set(&mut self, key: String, value: String)
        ensures
            final(self)@ == old(self)@.insert(key@, value@),
    {
        proof {
            use_type_invariant(&*self);
        }
        let ghost s = self.data@;
        let found = self.find(key.as_str());
        let mut d: Vec<(String, String)> = Vec::new();
        std::mem::swap(&mut d, &mut self.data);
        match found {
            Some(i) => {
                proof {
                    lemma_update_view(s, i as int, (key, value));
                }
                d.set(i, (key, value));
            },
            None => {
                proof {
                    lemma_push_view(s, (key, value));
                }
                d.push((key, value));
            },
        }
        self.data = d;
    }

    /// Remove `key`; returns its value, or `None` when it was absent.
    pub fn delete(&mut self, key: &str) -> (r: Option<String>)
        ensures
            final(self)@ == old(self)@.remove(key@),
            match r {
                Some(v) => old(self)@.contains_key(key@) && v@ == old(self)@[key@],
                None => !old(self)@.contains_key(key@),
            },
    {
        proof {
            use_type_invariant(&*self);
        }
        let ghost s = self.data@;
        match self.find(key) {
            Some(i) => {
                proof {
                    lemma_index_of_key(s, i as int);
                    lemma_remove_view(s, i as int);
                }
                let mut d: Vec<(String, String)> = Vec::new();
                std::mem::swap(&mut d, &mut self.data);
                let (_, v) = d.remove(i);
                self.data = d;
                Some(v)
            },
            None => {
                assert(self@ =~= old(self)@.remove(key@));
                None
            },
        }
    }
}

impl KvStore {
    /// A copy of every (key, value) pair, each key once.
    pub fn dump(&self) -> (r: Vec<(String, String)>)
        ensures
            keys_distinct(r@),
            map_of_pairs(r@) == self@,
    {
        proof {
            use_type_invariant(self);
        }
        let mut r: Vec<(String, String)> = Vec::new();
        let mut i: usize = 0;
        while i < self.data.len()
            invariant
                keys_distinct(self.data@),
                i <= self.data@.len(),
                r@ == self.data@.take(i as int),
            decreases self.data.len() - i,
        {
            r.push((self.data[i].0.clone(), self.data[i].1.clone()));
            i = i + 1;
            assert(r@ =~= self.data@.take(i as int));
        }
        assert(r@ =~= self.data@);
        proof {
            lemma_map_of_pairs(r@);
        }
        r
    }

    /// Replace the whole contents by the given pairs (a later pair wins over
    /// an earlier one with the same key).
    pub fn load(&mut self, data: Vec<(String, String)>)
        ensures
            final(self)@ == map_of_pairs(data@),
    {
        self.data = Vec::new();
        assert(self@ =~= Map::<Seq<char>, Seq<char>>::empty());
        let mut i: usize = 0;
        while i < data.len()
            invariant
                i <= data@.len(),
                self@ == map_of_pairs(data@.take(i as int)),
            decreases data.len() - i,
        {
            self.set(data[i].0.clone(), data[i].1.clone());
            assert(data@.take(i + 1).drop_last() =~= data@.take(i as int));
            i = i + 1;
        }
        assert(data@.take(i as int) =~= data@);
    }

    /// Every key, each once, in no particular order.
    pub fn keys(&self) -> (r: Vec<&String>)
        ensures
            r@.len() == self@.len(),
            forall|i: int| 0 <= i < r@.len() ==> self@.contains_key(#[trigger] r@[i]@),
            forall|k: Seq<char>| self@.contains_key(k) ==> exists|i: int| 0 <= i < r@.len() && #[trigger] r@[i]@ == k,
            forall|i: int, j: int| 0 <= i < j < r@.len() ==> r@[i]@ != r@[j]@,
    {
        proof {
            use_type_invariant(self);
            lemma_view_len(self.data@);
        }
        let mut r: Vec<&String> = Vec::new();
        let mut i: usize = 0;
        while i < self.data.len()
            invariant
                keys_distinct(self.data@),
                i <= self.data@.len(),
                r@.len() == i,
                forall|j: int| 0 <= j < i ==> #[trigger] r@[j]@ == self.data@[j].0@,
            decreases self.data.len() - i,
        {
            r.push(&self.data[i].0);
            i = i + 1;
        }
        proof {
            assert forall|j: int| 0 <= j < r@.len() implies self@.contains_key(#[trigger] r@[j]@) by {
                lemma_index_of_key(self.data@, j);
            }
            assert forall|k: Seq<char>| self@.contains_key(k) implies exists|j: int|
                0 <= j < r@.len() && #[trigger] r@[j]@ == k by {
                let j = choose|j: int| 0 <= j < self.data@.len() && self.data@[j].0@ == k;
                assert(r@[j]@ == k);
            }
        }
        r
    }

    /// The pairs whose key starts with `prefix`, sorted by key.
    #[verifier::rlimit(40)]
    pub fn scan(&self, prefix: &str) -> (r: Vec<(&String, &String)>)
        ensures
            forall|i: int|
                0 <= i < r@.len() ==> {
                    &&& self@.contains_key(#[trigger] r@[i].0@)
                    &&& r@[i].1@ == self@[r@[i].0@]
                    &&& has_prefix(r@[i].0@, prefix@)
                },
            forall|k: Seq<char>|
                self@.contains_key(k) && has_prefix(k, prefix@) ==> exists|i: int|
                    0 <= i < r@.len() && #[trigger] r@[i].0@ == k,
            forall|i: int, j: int| 0 <= i < j < r@.len() ==> text_lt(r@[i].0@, r@[j].0@),
    {
        proof {
            use_type_invariant(self);
        }
        let ghost d = self.data@;
        let mut r: Vec<(&String, &String)> = Vec::new();
        // Position in the pairs from which each result was taken.
        let ghost mut src: Seq<int> = Seq::empty();
        let mut idx: usize = 0;
        while idx < self.data.len()
            invariant
                d == self.data@,
                keys_distinct(d),
                idx <= d.len(),
                src.len() == r@.len(),
                forall|i: int|
                    0 <= i < r@.len() ==> {
                        &&& 0 <= #[trigger] src[i] < idx
                        &&& r@[i].0@ == d[src[i]].0@
                        &&& r@[i].1@ == d[src[i]].1@
                        &&& has_prefix(d[src[i]].0@, prefix@)
                    },
                forall|j: int| 0 <= j < idx && has_prefix(#[trigger] d[j].0@, prefix@) ==> src.contains(j),
                sorted_by_key(r@),
            decreases d.len() - idx,
        {
            let key: &String = &self.data[idx].0;
            let value: &String = &self.data[idx].1;
            if text_starts_with(key.as_str(), prefix) {
                proof {
                    assert forall|i: int| 0 <= i < r@.len() implies #[trigger] r@[i].0@ != key@ by {
                        assert(src[i] != idx);
                        assert(d[src[i]].0@ != d[idx as int].0@);
                    }
                }
                let ghost r0 = r@;
                let ghost src0 = src;
                let p = insert_sorted(&mut r, key, value);
                proof {
                    src = src.insert(p as int, idx as int);
                    assert forall|i: int| 0 <= i < r@.len() implies {
                        &&& 0 <= #[trigger] src[i] < idx + 1
                        &&& r@[i].0@ == d[src[i]].0@
                        &&& r@[i].1@ == d[src[i]].1@
                        &&& has_prefix(d[src[i]].0@, prefix@)
                    } by {
                        if i < p {
                            assert(r@[i] == r0[i] && src[i] == src0[i]);
                        } else if i > p {
                            assert(r@[i] == r0[i - 1] && src[i] == src0[i - 1]);
                        }
                    }
                    assert forall|j: int| 0 <= j < idx + 1 && has_prefix(d[j].0@, prefix@) implies src.contains(j) by {
                        if j == idx {
                            assert(src[p as int] == j);
                        } else {
                            assert(0 <= j < idx && has_prefix(d[j].0@, prefix@));
                            assert(src0.contains(j));
                            let i0 = choose|i: int| 0 <= i < src0.len() && src0[i] == j;
                            if i0 < p {
                                assert(src[i0] == j);
                            } else {
                                assert(src[i0 + 1] == j);
                            }
                        }
                    }
                }
            } else {
                proof {
                    assert forall|j: int| 0 <= j < idx + 1 && has_prefix(d[j].0@, prefix@) implies src.contains(j) by {
                        assert(j != idx);
                    }
                }
            }
            idx = idx + 1;
        }
        proof {
            assert forall|i: int| 0 <= i < r@.len() implies {
                &&& self@.contains_key(#[trigger] r@[i].0@)
                &&& r@[i].1@ == self@[r@[i].0@]
                &&& has_prefix(r@[i].0@, prefix@)
            } by {
                lemma_index_of_key(d, src[i]);
            }
            assert forall|k: Seq<char>| self@.contains_key(k) && has_prefix(k, prefix@) implies exists|i: int|
                0 <= i < r@.len() && #[trigger] r@[i].0@ == k by {
                let j = choose|j: int| 0 <= j < d.len() && d[j].0@ == k;
                assert(src.contains(j));
                let i = choose|i: int| 0 <= i < src.len() && src[i] == j;
                assert(r@[i].0@ == k);
            }
        }
        r
    }

    /// Number of keys held.
    pub fn len(&self) -> (r: usize)
        ensures
            r == self@.len(),
    {
        proof {
            use_type_invariant(self);
            lemma_view_len(self.data@);
        }
        self.data.len()
    }

    /// Whether the store holds no key.
    pub fn is_empty(&self) -> (r: bool)
        ensures
            r == (self@.len() == 0),
    {
        self.len() == 0
    }
}

/// A read gives back what the last write of its key wrote: after
/// `set(k, v)`, `get(k)` finds `v`, and the other keys keep their values.
pub proof fn law_read_after_set(m: Map<Seq<char>, Seq<char>>, k: Seq<char>, v: Seq<char>, other: Seq<char>)
    requires
        other != k,
    ensures
        m.insert(k, v).contains_key(k),
        m.insert(k, v)[k] == v,
        m.insert(k, v).contains_key(other) == m.contains_key(other),
        m.contains_key(other) ==> m.insert(k, v)[other] == m[other],
{
}

/// After `delete(k)`, `get(k)` finds nothing, and the other keys keep their values.
pub proof fn law_read_after_delete(m: Map<Seq<char>, Seq<char>>, k: Seq<char>, other: Seq<char>)
    requires
        other != k,
    ensures
        !m.remove(k).contains_key(k),
        m.remove(k).contains_key(other) == m.contains_key(other),
        m.contains_key(other) ==> m.remove(k)[other] == m[other],
{
}

/// Overwriting a key keeps one entry for it: setting an existing key does not
/// change the number of keys, setting a new one adds one.
pub proof fn law_set_counts_keys_once(m: Map<Seq<char>, Seq<char>>, k: Seq<char>, v: Seq<char>)
    requires
        m.dom().finite(),
    ensures
        m.contains_key(k) ==> m.insert(k, v).len() == m.len(),
        !m.contains_key(k) ==> m.insert(k, v).len() == m.len() + 1,
{
    if m.contains_key(k) {
        assert(m.insert(k, v).dom() =~= m.dom());
    }
}

} // verus!
