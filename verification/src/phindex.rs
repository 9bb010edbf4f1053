use vstd::prelude::*;
use vstd::slice::{slice_subrange, slice_to_vec};
use crate::header::{FormatError, KEY_SIZE};

verus! {

/// Strict lexicographic order on byte strings: the order used to assign each
/// key its dense id.
pub open spec fn lex_lt(a: Seq<u8>, b: Seq<u8>) -> bool
    decreases a.len(),
{
    if b.len() == 0 {
        false
    } else if a.len() == 0 {
        true
    } else if a[0] < b[0] {
        true
    } else if a[0] > b[0] {
        false
    } else {
        lex_lt(a.subrange(1, a.len() as int), b.subrange(1, b.len() as int))
    }
}

/// `k` occurs among the stored keys.
pub open spec fn contains_key(s: Seq<Seq<u8>>, k: Seq<u8>) -> bool {
    exists|i: int| 0 <= i < s.len() && s[i] == k
}

pub proof fn lemma_lex_irrefl(a: Seq<u8>)
    ensures
        !lex_lt(a, a),
    decreases a.len(),
{
    if a.len() > 0 {
        lemma_lex_irrefl(a.subrange(1, a.len() as int));
    }
}

pub proof fn lemma_lex_asym(a: Seq<u8>, b: Seq<u8>)
    requires
        lex_lt(a, b),
    ensures
        !lex_lt(b, a),
    decreases a.len(),
{
    if a.len() > 0 && b.len() > 0 && a[0] == b[0] {
        lemma_lex_asym(a.subrange(1, a.len() as int), b.subrange(1, b.len() as int));
    }
}

pub proof fn lemma_lex_total(a: Seq<u8>, b: Seq<u8>)
    ensures
        lex_lt(a, b) || lex_lt(b, a) || a == b,
    decreases a.len(),
{
    if a.len() == 0 && b.len() == 0 {
        assert(a =~= b);
    } else if a.len() > 0 && b.len() > 0 && a[0] == b[0] {
        let a1 = a.subrange(1, a.len() as int);
        let b1 = b.subrange(1, b.len() as int);
        assert(a1.len() == a.len() - 1);
        assert(b1.len() == b.len() - 1);
        lemma_lex_total(a1, b1);
        if a1 == b1 {
            assert(a.len() == b.len());
            assert forall|j: int| 0 <= j < a.len() implies a[j] == b[j] by {
                if j > 0 {
                    assert(a1[j - 1] == b1[j - 1]);
                    assert(a[j] == a1[j - 1]);
                    assert(b[j] == b1[j - 1]);
                }
            }
            assert(a =~= b);
        }
    }
}

pub proof fn lemma_lex_trans(a: Seq<u8>, b: Seq<u8>, c: Seq<u8>)
    requires
        lex_lt(a, b),
        lex_lt(b, c),
    ensures
        lex_lt(a, c),
    decreases a.len(),
{
    if a.len() > 0 && b.len() > 0 && c.len() > 0 && a[0] == b[0] && b[0] == c[0] {
        lemma_lex_trans(
            a.subrange(1, a.len() as int),
            b.subrange(1, b.len() as int),
            c.subrange(1, c.len() as int),
        );
    }
}

/// If `a` and `b` agree below position `i` and differ there, the order is
/// decided by the bytes at `i`.
proof fn lemma_lex_from_diff(a: Seq<u8>, b: Seq<u8>, i: int)
    requires
        0 <= i < a.len(),
        i < b.len(),
        forall|j: int| 0 <= j < i ==> a[j] == b[j],
        a[i] < b[i],
    ensures
        lex_lt(a, b),
    decreases i,
{
    if i > 0 {
        let a1 = a.subrange(1, a.len() as int);
        let b1 = b.subrange(1, b.len() as int);
        lemma_lex_from_diff(a1, b1, i - 1);
    }
}

/// A strict prefix is lexicographically smaller.
proof fn lemma_lex_prefix(a: Seq<u8>, b: Seq<u8>)
    requires
        a.len() < b.len(),
        forall|j: int| 0 <= j < a.len() ==> a[j] == b[j],
    ensures
        lex_lt(a, b),
    decreases a.len(),
{
    if a.len() > 0 {
        lemma_lex_prefix(a.subrange(1, a.len() as int), b.subrange(1, b.len() as int));
    }
}

/// Compare two byte strings; true exactly when `a` is lexicographically
/// smaller than `b`.
pub fn key_lt(a: &[u8], b: &[u8]) -> (r: bool)
    ensures
        r == lex_lt(a@, b@),
{
    let n = if a.len() < b.len() {
        a.len()
    } else {
        b.len()
    };
    let mut i: usize = 0;
    while i < n
        invariant
            0 <= i <= n,
            n <= a@.len(),
            n <= b@.len(),
            n == a@.len() || n == b@.len(),
            forall|j: int| 0 <= j < i ==> a@[j] == b@[j],
        decreases n - i,
    {
        if a[i] < b[i] {
            proof {
                lemma_lex_from_diff(a@, b@, i as int);
            }
            return true;
        }
        if a[i] > b[i] {
            proof {
                lemma_lex_from_diff(b@, a@, i as int);
                lemma_lex_asym(b@, a@);
            }
            return false;
        }
        i += 1;
    }
    if a.len() < b.len() {
        proof {
            lemma_lex_prefix(a@, b@);
        }
        true
    } else {
        proof {
            if a@.len() == b@.len() {
                assert(a@ =~= b@);
                lemma_lex_irrefl(a@);
            } else {
                lemma_lex_prefix(b@, a@);
                lemma_lex_asym(b@, a@);
            }
        }
        false
    }
}

/// True exactly when the two byte strings are equal.
pub fn key_eq(a: &[u8], b: &[u8]) -> (r: bool)
    ensures
        r == (a@ == b@),
{
    if a.len() != b.len() {
        return false;
    }
    let mut i: usize = 0;
    while i < a.len()
        invariant
            0 <= i <= a@.len(),
            a@.len() == b@.len(),
            forall|j: int| 0 <= j < i ==> a@[j] == b@[j],
        decreases a@.len() - i,
    {
        if a[i] != b[i] {
            return false;
        }
        i += 1;
    }
    proof {
        assert(a@ =~= b@);
    }
    true
}

/// The views of a sequence of owned keys.
pub open spec fn key_views(s: Seq<Vec<u8>>) -> Seq<Seq<u8>> {
    Seq::new(s.len(), |i: int| s[i]@)
}

/// `k` occurs among the first `i` entries of `keys`.
pub open spec fn prefix_contains(keys: Seq<Vec<u8>>, i: int, k: Seq<u8>) -> bool {
    exists|p: int| 0 <= p < i && keys[p]@ == k
}

/// Pointwise description of inserting at position `j`.
proof fn lemma_insert_pointwise(olds: Seq<Vec<u8>>, news: Seq<Vec<u8>>, k: Vec<u8>, j: int)
    requires
        0 <= j <= olds.len(),
        news == olds.insert(j, k),
    ensures
        news.len() == olds.len() + 1,
        forall|p: int| 0 <= p < j ==> news[p] == olds[p],
        news[j] == k,
        forall|q: int| j < q < news.len() ==> news[q] == olds[q - 1],
{
}

/// Inserting a key at its rank keeps the accumulator strictly sorted.
proof fn lemma_insert_sorted(olds: Seq<Vec<u8>>, news: Seq<Vec<u8>>, k: Vec<u8>, j: int)
    requires
        0 <= j <= olds.len(),
        news == olds.insert(j, k),
        forall|p: int, q: int| 0 <= p < q < olds.len() ==> lex_lt(olds[p]@, olds[q]@),
        forall|p: int| 0 <= p < j ==> lex_lt(#[trigger] olds[p]@, k@),
        j < olds.len() ==> lex_lt(k@, olds[j]@),
    ensures
        forall|p: int, q: int| 0 <= p < q < news.len() ==> lex_lt(news[p]@, news[q]@),
{
    lemma_insert_pointwise(olds, news, k, j);
    assert forall|p: int, q: int| 0 <= p < q < news.len() implies lex_lt(news[p]@, news[q]@) by {
        if p < j && q == j {
            // prefix elements are below k by assumption
        } else if p == j && q > j {
            if q - 1 > j {
                lemma_lex_trans(k@, olds[j]@, olds[q - 1]@);
            }
        } else if p < j && q > j {
            if q - 1 == j {
                lemma_lex_trans(news[p]@, k@, news[q]@);
            } else {
                lemma_lex_trans(olds[p]@, olds[j]@, olds[q - 1]@);
            }
        }
    }
}

/// Inserting the next key keeps every key seen so far present.
proof fn lemma_insert_holds(
    olds: Seq<Vec<u8>>,
    news: Seq<Vec<u8>>,
    k: Vec<u8>,
    keys: Seq<Vec<u8>>,
    i: int,
    j: int,
)
    requires
        0 <= i < keys.len(),
        0 <= j <= olds.len(),
        news == olds.insert(j, k),
        k@ == keys[i]@,
        forall|p: int| #![trigger keys[p]] 0 <= p < i
            ==> contains_key(key_views(olds), keys[p]@),
    ensures
        forall|p: int| #![trigger keys[p]] 0 <= p < i + 1
            ==> contains_key(key_views(news), keys[p]@),
{
    lemma_insert_pointwise(olds, news, k, j);
    assert forall|p: int| #![trigger keys[p]] 0 <= p < i + 1 implies contains_key(
        key_views(news),
        keys[p]@,
    ) by {
        if p == i {
            assert(key_views(news)[j] == keys[p]@);
        } else {
            let q0 = choose|q0: int|
                0 <= q0 < key_views(olds).len() && key_views(olds)[q0] == keys[p]@;
            if q0 < j {
                assert(key_views(news)[q0] == keys[p]@);
            } else {
                assert(key_views(news)[q0 + 1] == keys[p]@);
            }
        }
    }
}

/// Inserting the next key keeps every accumulator entry an already-seen key.
proof fn lemma_insert_from(
    olds: Seq<Vec<u8>>,
    news: Seq<Vec<u8>>,
    k: Vec<u8>,
    keys: Seq<Vec<u8>>,
    i: int,
    j: int,
)
    requires
        0 <= i < keys.len(),
        0 <= j <= olds.len(),
        news == olds.insert(j, k),
        k@ == keys[i]@,
        forall|q: int| #![trigger olds[q]] 0 <= q < olds.len()
            ==> prefix_contains(keys, i, olds[q]@),
    ensures
        forall|q: int| #![trigger news[q]] 0 <= q < news.len()
            ==> prefix_contains(keys, i + 1, news[q]@),
{
    lemma_insert_pointwise(olds, news, k, j);
    assert forall|q: int| #![trigger news[q]] 0 <= q < news.len() implies prefix_contains(
        keys,
        i + 1,
        news[q]@,
    ) by {
        if q == j {
            assert(keys[i]@ == news[q]@);
        } else if q < j {
            let p0 = choose|p0: int| 0 <= p0 < i && keys[p0]@ == olds[q]@;
            assert(keys[p0]@ == news[q]@);
        } else {
            let p0 = choose|p0: int| 0 <= p0 < i && keys[p0]@ == olds[q - 1]@;
            assert(keys[p0]@ == news[q]@);
        }
    }
}

/// The 16-byte shape of every entry survives an insert of a 16-byte key.
proof fn lemma_insert_sizes(olds: Seq<Vec<u8>>, news: Seq<Vec<u8>>, k: Vec<u8>, j: int)
    requires
        0 <= j <= olds.len(),
        news == olds.insert(j, k),
        k@.len() == KEY_SIZE,
        forall|p: int| 0 <= p < olds.len() ==> (#[trigger] olds[p]@).len() == KEY_SIZE,
    ensures
        forall|p: int| 0 <= p < news.len() ==> (#[trigger] news[p]@).len() == KEY_SIZE,
{
    lemma_insert_pointwise(olds, news, k, j);
}

/// The perfect-hash structure: a bijection from the stored key set onto the
/// dense id range `[0, n)`. A key's id is its rank in lexicographic order, so
/// the structure is exactly the keys held in id order, strictly sorted, and a
/// query is a binary search.
pub struct PerfectHashIndex {
    /// The keys, in id order: strictly sorted, each exactly 16 bytes.
    pub keys: Vec<Vec<u8>>,
}

impl View for PerfectHashIndex {
    type V = Seq<Seq<u8>>;

    open spec fn view(&self) -> Seq<Seq<u8>> {
        key_views(self.keys@)
    }
}

impl PerfectHashIndex {
    /// Validity: every key is 16 bytes and the sequence is strictly sorted
    /// (hence the keys are distinct and rank is a bijection onto `[0, n)`).
    pub open spec fn wf(self) -> bool {
        &&& forall|i: int| 0 <= i < self@.len() ==> (#[trigger] self@[i]).len() == KEY_SIZE
        &&& forall|i: int, j: int| 0 <= i < j < self@.len() ==> lex_lt(self@[i], self@[j])
    }

    /// The number of stored keys.
    pub fn len(&self) -> (n: usize)
        ensures
            n == self@.len(),
    {
        self.keys.len()
    }

    /// Build the bijection over a set of distinct 16-byte keys: every input
    /// key receives exactly one id, and every id holds exactly one input key.
    pub fn build(keys: &Vec<Vec<u8>>) -> (r: PerfectHashIndex)
        requires
            forall|i: int| 0 <= i < keys@.len() ==> (#[trigger] keys@[i]@).len() == KEY_SIZE,
            forall|i: int, j: int| 0 <= i < j < keys@.len() ==> keys@[i]@ != keys@[j]@,
        ensures
            r.wf(),
            r@.len() == keys@.len(),
            forall|i: int| #![trigger keys@[i]] 0 <= i < keys@.len()
                ==> contains_key(r@, keys@[i]@),
            forall|id: int| #![trigger r@[id]] 0 <= id < r@.len()
                ==> prefix_contains(keys@, keys@.len() as int, r@[id]),
    {
        let mut sorted: Vec<Vec<u8>> = Vec::new();
        let mut i: usize = 0;
        while i < keys.len()
            invariant
                forall|p: int| 0 <= p < keys@.len() ==> (#[trigger] keys@[p]@).len() == KEY_SIZE,
                forall|p: int, q: int| 0 <= p < q < keys@.len() ==> keys@[p]@ != keys@[q]@,
                0 <= i <= keys@.len(),
                sorted@.len() == i,
                forall|p: int| 0 <= p < sorted@.len()
                    ==> (#[trigger] sorted@[p]@).len() == KEY_SIZE,
                forall|p: int, q: int| 0 <= p < q < sorted@.len()
                    ==> lex_lt(sorted@[p]@, sorted@[q]@),
                forall|p: int| #![trigger keys@[p]] 0 <= p < i
                    ==> contains_key(key_views(sorted@), keys@[p]@),
                forall|q: int| #![trigger sorted@[q]] 0 <= q < sorted@.len()
                    ==> prefix_contains(keys@, i as int, sorted@[q]@),
            decreases keys@.len() - i,
        {
            let k = slice_to_vec(keys[i].as_slice());
            let mut j: usize = 0;
            while j < sorted.len() && key_lt(sorted[j].as_slice(), k.as_slice())
                invariant
                    0 <= i < keys@.len(),
                    0 <= j <= sorted@.len(),
                    k@ == keys@[i as int]@,
                    forall|p: int| 0 <= p < j ==> lex_lt(#[trigger] sorted@[p]@, k@),
                decreases sorted@.len() - j,
            {
                j += 1;
            }
            proof {
                if j < sorted@.len() {
                    // the slot key is one of the earlier input keys, all of
                    // which differ from the fresh key, so by totality the
                    // fresh key is strictly smaller
                    let p0 = choose|p0: int|
                        0 <= p0 < i && keys@[p0]@ == sorted@[j as int]@;
                    assert(sorted@[j as int]@ != k@);
                    lemma_lex_total(sorted@[j as int]@, k@);
                    assert(lex_lt(k@, sorted@[j as int]@));
                }
            }
            let ghost old_sorted = sorted@;
            sorted.insert(j, k);
            proof {
                lemma_insert_sizes(old_sorted, sorted@, k, j as int);
                lemma_insert_sorted(old_sorted, sorted@, k, j as int);
                lemma_insert_holds(old_sorted, sorted@, k, keys@, i as int, j as int);
                lemma_insert_from(old_sorted, sorted@, k, keys@, i as int, j as int);
            }
            i += 1;
        }
        let r = PerfectHashIndex { keys: sorted };
        proof {
            assert(r@ =~= key_views(sorted@));
        }
        r
    }

    /// Resolve a key to its id: a binary search over the sorted key array.
    /// Total for any query bytes; `None` exactly when the key is not stored.
    pub fn query(&self, key: &[u8]) -> (r: Option<usize>)
        requires
            self.wf(),
        ensures
            match r {
                Some(id) => id < self@.len() && self@[id as int] == key@,
                None => !contains_key(self@, key@),
            },
    {
        let mut lo: usize = 0;
        let mut hi: usize = self.keys.len();
        while lo < hi
            invariant
                self.wf(),
                0 <= lo <= hi <= self@.len(),
                forall|p: int| 0 <= p < lo ==> lex_lt(#[trigger] self@[p], key@),
                forall|p: int| hi <= p < self@.len() ==> lex_lt(key@, #[trigger] self@[p]),
            decreases hi - lo,
        {
            let mid = lo + (hi - lo) / 2;
            if key_lt(self.keys[mid].as_slice(), key) {
                proof {
                    assert forall|p: int| 0 <= p < mid + 1 implies lex_lt(
                        #[trigger] self@[p],
                        key@,
                    ) by {
                        if p < mid {
                            lemma_lex_trans(self@[p], self@[mid as int], key@);
                        }
                    }
                }
                lo = mid + 1;
            } else if key_lt(key, self.keys[mid].as_slice()) {
                proof {
                    assert forall|p: int| mid <= p < self@.len() implies lex_lt(
                        key@,
                        #[trigger] self@[p],
                    ) by {
                        if p > mid {
                            lemma_lex_trans(key@, self@[mid as int], self@[p]);
                        }
                    }
                }
                hi = mid;
            } else {
                proof {
                    lemma_lex_total(self@[mid as int], key@);
                }
                return Some(mid);
            }
        }
        proof {
            assert forall|id: int| 0 <= id < self@.len() implies self@[id] != key@ by {
                if self@[id] == key@ {
                    lemma_lex_irrefl(key@);
                }
            }
        }
        None
    }
}


/// The byte image of a key sequence: the keys laid end to end.
pub open spec fn flat_keys(s: Seq<Seq<u8>>) -> Seq<u8>
    decreases s.len(),
{
    if s.len() == 0 {
        Seq::empty()
    } else {
        s[0] + flat_keys(s.subrange(1, s.len() as int))
    }
}

/// The `i`-th 16-byte record of a byte region.
pub open spec fn chunk16(b: Seq<u8>, i: int) -> Seq<u8> {
    b.subrange(KEY_SIZE * i, KEY_SIZE * i + KEY_SIZE)
}

/// The 16-byte records of a byte region are strictly sorted.
pub open spec fn chunks_sorted(b: Seq<u8>, n: int) -> bool {
    forall|i: int, j: int| 0 <= i < j < n ==> lex_lt(chunk16(b, i), chunk16(b, j))
}

pub proof fn lemma_flat_push(s: Seq<Seq<u8>>, x: Seq<u8>)
    ensures
        flat_keys(s.push(x)) == flat_keys(s) + x,
    decreases s.len(),
{
    if s.len() == 0 {
        assert(s.push(x).subrange(1, 1) =~= Seq::<Seq<u8>>::empty());
        assert(flat_keys(s.push(x)) == s.push(x)[0] + flat_keys(Seq::<Seq<u8>>::empty()));
        assert(flat_keys(s.push(x)) =~= x);
        assert(flat_keys(s) + x =~= x);
    } else {
        assert(s.push(x).subrange(1, s.len() as int + 1) =~= s.subrange(1, s.len() as int).push(x));
        lemma_flat_push(s.subrange(1, s.len() as int), x);
        assert(flat_keys(s.push(x)) =~= flat_keys(s) + x);
    }
}

/// Over 16-byte keys, the flat image has the obvious length and each key can
/// be read back as the 16-byte record at its id.
pub proof fn lemma_flat_uniform(s: Seq<Seq<u8>>)
    requires
        forall|i: int| 0 <= i < s.len() ==> (#[trigger] s[i]).len() == KEY_SIZE,
    ensures
        flat_keys(s).len() == KEY_SIZE * s.len(),
        forall|i: int| 0 <= i < s.len() ==> #[trigger] chunk16(flat_keys(s), i) == s[i],
    decreases s.len(),
{
    if s.len() > 0 {
        let tail = s.subrange(1, s.len() as int);
        lemma_flat_uniform(tail);
        assert forall|i: int| 0 <= i < s.len() implies #[trigger] chunk16(flat_keys(s), i)
            == s[i] by {
            if i == 0 {
                assert(chunk16(flat_keys(s), 0) =~= s[0]);
            } else {
                assert(chunk16(flat_keys(tail), i - 1) == tail[i - 1]);
                assert(chunk16(flat_keys(s), i) =~= chunk16(flat_keys(tail), i - 1));
            }
        }
    }
}

impl PerfectHashIndex {
    /// Serialize the structure: its keys laid end to end in id order.
    pub fn serialize(&self) -> (out: Vec<u8>)
        ensures
            out@ == flat_keys(self@),
    {
        let mut out: Vec<u8> = Vec::new();
        let mut id: usize = 0;
        while id < self.keys.len()
            invariant
                0 <= id <= self@.len(),
                self@.len() == self.keys@.len(),
                out@ == flat_keys(self@.subrange(0, id as int)),
            decreases self@.len() - id,
        {
            crate::header::push_bytes(&mut out, self.keys[id].as_slice());
            proof {
                assert(self@.subrange(0, id + 1) =~= self@.subrange(0, id as int).push(
                    self@[id as int],
                ));
                lemma_flat_push(self@.subrange(0, id as int), self@[id as int]);
            }
            id += 1;
        }
        proof {
            assert(self@.subrange(0, self@.len() as int) =~= self@);
        }
        out
    }

    /// Deserialize a structure of `n` keys from a byte region: the region must
    /// be exactly `n` 16-byte records in strictly sorted order, as `serialize`
    /// lays them out; anything else is rejected as `Malformed`.
    pub fn deserialize(bytes: &[u8], n: usize) -> (r: Result<PerfectHashIndex, FormatError>)
        ensures
            match r {
                Ok(idx) => {
                    &&& bytes@.len() == KEY_SIZE * n
                    &&& chunks_sorted(bytes@, n as int)
                    &&& idx.wf()
                    &&& idx@.len() == n
                    &&& forall|i: int| 0 <= i < n ==> #[trigger] idx@[i] == chunk16(bytes@, i)
                },
                Err(e) => {
                    &&& e == FormatError::Malformed
                    &&& !(bytes@.len() == KEY_SIZE * n && chunks_sorted(bytes@, n as int))
                },
            },
    {
        proof {
            vstd::arithmetic::div_mod::lemma_fundamental_div_mod(bytes@.len() as int, 16);
        }
        if bytes.len() % 16 != 0 || bytes.len() / 16 != n {
            proof {
                if bytes@.len() == KEY_SIZE * n {
                    vstd::arithmetic::div_mod::lemma_fundamental_div_mod_converse(
                        bytes@.len() as int,
                        16,
                        n as int,
                        0,
                    );
                }
            }
            return Err(FormatError::Malformed);
        }
        proof {
            assert(bytes@.len() <= usize::MAX);
        }
        let mut ks: Vec<Vec<u8>> = Vec::new();
        let mut i: usize = 0;
        while i < n
            invariant
                0 <= i <= n,
                bytes@.len() == KEY_SIZE * n,
                KEY_SIZE * n <= usize::MAX,
                ks@.len() == i,
                forall|p: int| 0 <= p < i ==> #[trigger] ks@[p]@ == chunk16(bytes@, p),
                forall|p: int| 0 <= p < i ==> (#[trigger] ks@[p]@).len() == KEY_SIZE,
                forall|p: int, q: int| 0 <= p < q < i ==> lex_lt(ks@[p]@, ks@[q]@),
            decreases n - i,
        {
            let ck = slice_to_vec(slice_subrange(bytes, i * 16, i * 16 + 16));
            if i > 0 {
                if !key_lt(ks[i - 1].as_slice(), ck.as_slice()) {
                    proof {
                        assert(!lex_lt(chunk16(bytes@, i as int - 1), chunk16(bytes@, i as int)));
                    }
                    return Err(FormatError::Malformed);
                }
            }
            ks.push(ck);
            proof {
                assert forall|p: int, q: int| 0 <= p < q < i + 1 implies lex_lt(
                    ks@[p]@,
                    ks@[q]@,
                ) by {
                    if q == i && p < i as int - 1 {
                        lemma_lex_trans(ks@[p]@, ks@[i - 1]@, ks@[q]@);
                    }
                }
            }
            i += 1;
        }
        let r = PerfectHashIndex { keys: ks };
        proof {
            assert forall|i2: int, j2: int| 0 <= i2 < j2 < n implies lex_lt(
                chunk16(bytes@, i2),
                chunk16(bytes@, j2),
            ) by {
                assert(ks@[i2]@ == chunk16(bytes@, i2));
                assert(ks@[j2]@ == chunk16(bytes@, j2));
                assert(lex_lt(ks@[i2]@, ks@[j2]@));
            }
            assert(chunks_sorted(bytes@, n as int));
            assert(r@ =~= key_views(ks@));
            assert forall|p: int| 0 <= p < r@.len() implies #[trigger] r@[p] == ks@[p]@ by {
            }
            assert(r.wf());
            assert forall|i2: int| 0 <= i2 < n implies #[trigger] r@[i2] == chunk16(
                bytes@,
                i2,
            ) by {
            }
        }
        Ok(r)
    }
}

} // verus!
