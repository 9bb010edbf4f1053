use vstd::prelude::*;
use vstd::bytes::*;
use vstd::slice::slice_subrange;
use crate::header::{
    DabaHeader, FormatError, IndexHeader, DABA_HEADER_SIZE, INDEX_HEADER_SIZE, KEY_SIZE,
    spec_decode_daba, spec_decode_index, spec_encode_daba, spec_encode_index, push_bytes,
    lemma_decode_daba_prefix, lemma_decode_index_prefix,
};
use crate::phindex::{
    PerfectHashIndex, chunk16, chunks_sorted, contains_key, flat_keys, key_eq,
    lemma_flat_uniform, lemma_lex_irrefl, lex_lt, prefix_contains,
};

verus! {

/// The decoded contents of a data/index file pair.
pub ghost struct DbSpec {
    /// The data file's header.
    pub header: DabaHeader,
    /// The stored keys, in id order.
    pub keys: Seq<Seq<u8>>,
    /// The value offsets, in id order.
    pub offsets: Seq<u64>,
}

/// The offsets array is valid for a value region of `region_len` bytes:
/// it starts at zero, never decreases, and never passes the region's end.
pub open spec fn offsets_ok(offs: Seq<u64>, region_len: int) -> bool {
    &&& offs.len() > 0 ==> offs[0] == 0
    &&& forall|i: int| 0 <= i < offs.len() - 1 ==> #[trigger] offs[i] <= offs[i + 1]
    &&& offs.len() > 0 ==> offs[offs.len() - 1] <= region_len
}

/// Adjacent monotonicity gives monotonicity between any two positions.
pub proof fn lemma_offsets_mono(offs: Seq<u64>, i: int, j: int)
    requires
        forall|p: int| 0 <= p < offs.len() - 1 ==> #[trigger] offs[p] <= offs[p + 1],
        0 <= i <= j < offs.len(),
    ensures
        offs[i] <= offs[j],
    decreases j - i,
{
    if i < j {
        lemma_offsets_mono(offs, i + 1, j);
    }
}

/// The `n` little-endian 64-bit integers laid out in a byte region.
pub open spec fn spec_parse_offsets(b: Seq<u8>, n: int) -> Seq<u64> {
    Seq::new(n as nat, |i: int| spec_u64_from_le_bytes(b.subrange(8 * i, 8 * i + 8)))
}

/// The byte image of an offsets array.
pub open spec fn flat_offsets(offs: Seq<u64>) -> Seq<u8>
    decreases offs.len(),
{
    if offs.len() == 0 {
        Seq::empty()
    } else {
        spec_u64_to_le_bytes(offs[0]) + flat_offsets(offs.subrange(1, offs.len() as int))
    }
}

pub proof fn lemma_flat_offsets_push(offs: Seq<u64>, x: u64)
    ensures
        flat_offsets(offs.push(x)) == flat_offsets(offs) + spec_u64_to_le_bytes(x),
    decreases offs.len(),
{
    if offs.len() == 0 {
        assert(offs.push(x).subrange(1, 1) =~= Seq::<u64>::empty());
        assert(flat_offsets(offs.push(x)) == spec_u64_to_le_bytes(offs.push(x)[0])
            + flat_offsets(Seq::<u64>::empty()));
        assert(flat_offsets(offs.push(x)) =~= spec_u64_to_le_bytes(x));
        assert(flat_offsets(offs) + spec_u64_to_le_bytes(x) =~= spec_u64_to_le_bytes(x));
    } else {
        assert(offs.push(x).subrange(1, offs.len() as int + 1) =~= offs.subrange(
            1,
            offs.len() as int,
        ).push(x));
        lemma_flat_offsets_push(offs.subrange(1, offs.len() as int), x);
        assert(flat_offsets(offs.push(x)) =~= flat_offsets(offs) + spec_u64_to_le_bytes(x));
    }
}

/// The flat offsets image has 8 bytes per entry and parses back to the array.
pub proof fn lemma_flat_offsets_parse(offs: Seq<u64>)
    ensures
        flat_offsets(offs).len() == 8 * offs.len(),
        spec_parse_offsets(flat_offsets(offs), offs.len() as int) =~= offs,
    decreases offs.len(),
{
    lemma_auto_spec_u64_to_from_le_bytes();
    if offs.len() > 0 {
        let tail = offs.subrange(1, offs.len() as int);
        lemma_flat_offsets_parse(tail);
        assert forall|i: int| 0 <= i < offs.len() implies spec_parse_offsets(
            flat_offsets(offs),
            offs.len() as int,
        )[i] == offs[i] by {
            if i == 0 {
                assert(flat_offsets(offs).subrange(0, 8) =~= spec_u64_to_le_bytes(offs[0]));
            } else {
                assert(flat_offsets(offs).subrange(8 * i, 8 * i + 8) =~= flat_offsets(
                    tail,
                ).subrange(8 * (i - 1), 8 * (i - 1) + 8));
                assert(spec_parse_offsets(flat_offsets(tail), tail.len() as int)[i - 1]
                    == tail[i - 1]);
            }
        }
    }
}

/// The byte range of the data file holding the value of id `id`: it runs from
/// this id's offset to the next id's offset, or to the end of the file for
/// the last id.
pub open spec fn spec_slot(data: Seq<u8>, vs: int, offs: Seq<u64>, id: int) -> Seq<u8> {
    let end = if id + 1 < offs.len() {
        offs[id + 1] as int
    } else {
        data.len() - vs
    };
    data.subrange(vs + offs[id], vs + end)
}

/// What opening a file pair yields, for any bytes whatever: the decoded
/// contents, or the first error the validation cascade hits. `Truncated` and
/// `BadMagic` come from the headers; `CountMismatch` when the two files
/// disagree about the key count; `Malformed` when a recorded size, section or
/// offset is inconsistent with the files themselves.
pub open spec fn spec_open(data: Seq<u8>, index: Seq<u8>) -> Result<DbSpec, FormatError> {
    match spec_decode_daba(data) {
        Err(e) => Err(e),
        Ok(dh) => match spec_decode_index(index) {
            Err(e) => Err(e),
            Ok(ih) => if dh.key_size != KEY_SIZE as u64 {
                Err(FormatError::Malformed)
            } else if !(DABA_HEADER_SIZE <= dh.values_start <= data.len()) {
                Err(FormatError::Malformed)
            } else if ih.num_keys != dh.num_keys {
                Err(FormatError::CountMismatch)
            } else {
                let n = dh.num_keys as int;
                if !(ih.mphf_size == 16 * n && ih.keys_offset == 40 + 16 * n
                    && ih.offsets_offset == 40 + 32 * n && index.len() == 40 + 40 * n) {
                    Err(FormatError::Malformed)
                } else {
                    let sreg = index.subrange(40, 40 + 16 * n);
                    let kreg = index.subrange(40 + 16 * n, 40 + 32 * n);
                    let oreg = index.subrange(40 + 32 * n, 40 + 40 * n);
                    if !chunks_sorted(sreg, n) {
                        Err(FormatError::Malformed)
                    } else if kreg != sreg {
                        Err(FormatError::Malformed)
                    } else {
                        let offs = spec_parse_offsets(oreg, n);
                        if !offsets_ok(offs, data.len() - dh.values_start) {
                            Err(FormatError::Malformed)
                        } else {
                            Ok(DbSpec {
                                header: dh,
                                keys: Seq::new(n as nat, |i: int| chunk16(sreg, i)),
                                offsets: offs,
                            })
                        }
                    }
                }
            },
        },
    }
}

/// What a successful `open` of the file pair `(data, index)` establishes of
/// the database it returns: the decoded contents, the whole data file, and
/// validity.
pub open spec fn spec_opened(db: Database, data: Seq<u8>, index: Seq<u8>) -> bool {
    &&& spec_open(data, index) matches Ok(m) && db.header == m.header && db.index@ == m.keys
        && db.offsets@ == m.offsets
    &&& db.data@ == data
    &&& db.wf()
}

/// What `write_database` guarantees of the file pair it produces from `keys`,
/// `values` and `version`: opening it succeeds, the headers hold the expected
/// fields, the stored key set is exactly the input key set, and the value
/// slot of every stored key holds exactly that key's input value.
pub open spec fn spec_build_ok(
    keys: Seq<Vec<u8>>,
    values: Seq<Vec<u8>>,
    version: u32,
    data: Seq<u8>,
    index: Seq<u8>,
) -> bool {
    &&& spec_open(data, index) matches Ok(m) && {
        &&& m.header == (DabaHeader {
            version,
            num_keys: keys.len() as u64,
            key_size: KEY_SIZE as u64,
            values_start: DABA_HEADER_SIZE as u64,
        })
        &&& spec_decode_index(index) == Ok::<IndexHeader, FormatError>(IndexHeader {
            version,
            num_keys: keys.len() as u64,
            mphf_size: (16 * keys.len()) as u64,
            keys_offset: (40 + 16 * keys.len()) as u64,
            offsets_offset: (40 + 32 * keys.len()) as u64,
        })
        &&& keys.len() == 0 ==> data.len() == DABA_HEADER_SIZE
        &&& m.keys.len() == keys.len()
        &&& forall|i: int| #![trigger keys[i]] 0 <= i < keys.len()
            ==> contains_key(m.keys, keys[i]@)
        &&& forall|id: int| #![trigger m.keys[id]] 0 <= id < m.keys.len()
            ==> prefix_contains(keys, keys.len() as int, m.keys[id])
        &&& forall|i: int, id: int|
            #![trigger keys[i], m.keys[id]]
            0 <= i < keys.len() && 0 <= id < m.keys.len() && m.keys[id] == keys[i]@
                ==> spec_slot(data, DABA_HEADER_SIZE as int, m.offsets, id) == values[i]@
        &&& forall|id: int| 0 <= id < m.offsets.len() ==> #[trigger] m.offsets[id] as int
            + spec_slot(data, DABA_HEADER_SIZE as int, m.offsets, id).len() == (if id + 1
            < m.offsets.len() {
            m.offsets[id + 1] as int
        } else {
            data.len() - DABA_HEADER_SIZE
        })
    }
}

/// An immutable, queryable database: the whole data file, the perfect-hash
/// structure, and the offsets array, as loaded by `open`.
pub struct Database {
    /// The decoded data-file header.
    pub header: DabaHeader,
    /// The entire data file.
    pub data: Vec<u8>,
    /// The perfect-hash structure: the stored keys in id order.
    pub index: PerfectHashIndex,
    /// The value offsets in id order.
    pub offsets: Vec<u64>,
}

impl Database {
    /// Validity, established by `open` and never changed afterwards.
    pub open spec fn wf(self) -> bool {
        &&& self.index.wf()
        &&& self.index@.len() == self.offsets@.len()
        &&& self.header.num_keys == self.offsets@.len()
        &&& self.header.key_size == KEY_SIZE as u64
        &&& DABA_HEADER_SIZE <= self.header.values_start <= self.data@.len()
        &&& offsets_ok(self.offsets@, self.data@.len() - self.header.values_start)
    }

    /// The value bytes stored for id `id`.
    pub open spec fn slot(self, id: int) -> Seq<u8> {
        spec_slot(self.data@, self.header.values_start as int, self.offsets@, id)
    }

    /// Point lookup: resolve the key to an id, validate the stored key, and
    /// return the value as a borrowed slice of the mapped data file. Returns
    /// `Some` exactly for stored keys, and then exactly the stored bytes;
    /// `None` for everything else, never an error.
    pub fn get<'a>(&'a self, key: &[u8]) -> (r: Option<&'a [u8]>)
        requires
            self.wf(),
        ensures
            match r {
                Some(v) => exists|id: int|
                    #![trigger self.index@[id]]
                    0 <= id < self.index@.len() && self.index@[id] == key@ && v@ == self.slot(id),
                None => !contains_key(self.index@, key@),
            },
    {
        let id = match self.index.query(key) {
            Some(id) => id,
            None => {
                return None;
            },
        };
        if id >= self.offsets.len() {
            // unreachable under wf; kept as the mandated defensive bounds check
            return None;
        }
        let dlen = self.data.len();
        proof {
            assert(self.header.values_start <= dlen);
            lemma_offsets_mono(self.offsets@, id as int, self.offsets@.len() - 1);
        }
        let vs = self.header.values_start as usize;
        let start = self.offsets[id] as usize;
        let end: usize = if id + 1 < self.offsets.len() {
            proof {
                lemma_offsets_mono(self.offsets@, id as int + 1, self.offsets@.len() - 1);
            }
            self.offsets[id + 1] as usize
        } else {
            dlen - vs
        };
        let v = slice_subrange(self.data.as_slice(), vs + start, vs + end);
        proof {
            assert(self.index@[id as int] == key@);
            assert(v@ == self.slot(id as int));
        }
                Some(v)
    }

    /// Open a database from the bytes of its data file and index file,
    /// validating everything `spec_open` describes: the headers, the section
    /// layout, the sorted key records, the agreement of the two key sections,
    /// and that every offset stays inside the mapped value region.
    #[verifier::rlimit(100)]
    #[verifier::loop_isolation(false)]
    pub fn open(data: Vec<u8>, index: Vec<u8>) -> (r: Result<Database, FormatError>)
        ensures
            match r {
                Ok(db) => spec_opened(db, data@, index@),
                Err(e) => spec_open(data@, index@) == Err::<DbSpec, FormatError>(e),
            },
    {
        let dh = match DabaHeader::from_bytes(data.as_slice()) {
            Ok(h) => h,
            Err(e) => {
                return Err(e);
            },
        };
        let ih = match IndexHeader::from_bytes(index.as_slice()) {
            Ok(h) => h,
            Err(e) => {
                return Err(e);
            },
        };
        if dh.key_size != KEY_SIZE as u64 {
            return Err(FormatError::Malformed);
        }
        if !(dh.values_start >= DABA_HEADER_SIZE as u64 && dh.values_start <= data.len() as u64) {
            return Err(FormatError::Malformed);
        }
        if ih.num_keys != dh.num_keys {
            return Err(FormatError::CountMismatch);
        }
        let n64 = dh.num_keys;
        let ok_layout = {
            let n128 = n64 as u128;
            (ih.mphf_size as u128 == 16 * n128) && (ih.keys_offset as u128 == 40 + 16 * n128)
                && (ih.offsets_offset as u128 == 40 + 32 * n128) && (index.len() as u128 == 40
                + 40 * n128)
        };
        if !ok_layout {
            return Err(FormatError::Malformed);
        }
        let ilen = index.len();
        proof {
            assert((40 * (n64 as int)) >= n64 as int) by (nonlinear_arith);
            assert(index@.len() == 40 + 40 * (n64 as int));
            assert(n64 as int <= usize::MAX as int);
            assert(16 * (n64 as int) <= 40 * (n64 as int)) by (nonlinear_arith);
            assert(32 * (n64 as int) <= 40 * (n64 as int)) by (nonlinear_arith);
        }
        let n = n64 as usize;
        let sreg = slice_subrange(index.as_slice(), 40, 40 + 16 * n);
        let idx = match PerfectHashIndex::deserialize(sreg, n) {
            Ok(idx) => idx,
            Err(e) => {
                return Err(FormatError::Malformed);
            },
        };
        let kreg = slice_subrange(index.as_slice(), 40 + 16 * n, 40 + 32 * n);
        if !key_eq(sreg, kreg) {
            return Err(FormatError::Malformed);
        }
        let mut offsets: Vec<u64> = Vec::new();
        let obase = 40 + 32 * n;
        let mut i: usize = 0;
        let ghost oreg = index@.subrange(40 + 32 * (n as int), 40 + 40 * (n as int));
        while i < n
            invariant
                0 <= i <= n,
                obase == 40 + 32 * n,
                index@.len() == 40 + 40 * n,
                oreg == index@.subrange(40 + 32 * (n as int), 40 + 40 * (n as int)),
                40 + 40 * (n as int) <= usize::MAX,
                offsets@.len() == i,
                forall|p: int| 0 <= p < i ==> #[trigger] offsets@[p] == spec_u64_from_le_bytes(
                    oreg.subrange(8 * p, 8 * p + 8),
                ),
            decreases n - i,
        {
            let o = u64_from_le_bytes(slice_subrange(index.as_slice(), obase + 8 * i, obase + 8 * i
                + 8));
            proof {
                assert(index@.subrange(
                    obase + 8 * (i as int),
                    obase + 8 * (i as int) + 8,
                ) =~= oreg.subrange(8 * (i as int), 8 * (i as int) + 8));
            }
            offsets.push(o);
            i += 1;
        }
        proof {
            assert(offsets@ =~= spec_parse_offsets(oreg, n as int));
        }
        // hardening: validate the offsets against the mapped data file
        if n > 0 {
            if offsets[0] != 0 {
                return Err(FormatError::Malformed);
            }
            let mut j: usize = 1;
            while j < n
                invariant
                    1 <= j <= n,
                    offsets@.len() == n,
                    forall|p: int| 0 <= p < j - 1 ==> #[trigger] offsets@[p] <= offsets@[p + 1],
                decreases n - j,
            {
                if offsets[j - 1] > offsets[j] {
                    return Err(FormatError::Malformed);
                }
                j += 1;
            }
            let region = (data.len() as u64) - dh.values_start;
            if offsets[n - 1] > region {
                return Err(FormatError::Malformed);
            }
        }
        let db = Database { header: dh, data, index: idx, offsets };
        proof {
            let ghost m = spec_open(db.data@, index@).unwrap();
            assert(db.index@ =~= m.keys);
        }
        Ok(db)
    }
}

/// Original index `i` is named by some slot of the inverse permutation.
pub open spec fn perm_covers(perm: Seq<usize>, i: int) -> bool {
    exists|id: int| 0 <= id < perm.len() && perm[id] == i
}

/// One step of the inverse-permutation build: recording that id `id` came
/// from original index `i` keeps every earlier assignment intact.
proof fn lemma_perm_step(
    keys: Seq<Vec<u8>>,
    idx: Seq<Seq<u8>>,
    oldp: Seq<usize>,
    newp: Seq<usize>,
    i: usize,
    id: usize,
)
    requires
        idx.len() == keys.len(),
        oldp.len() == keys.len(),
        0 <= i < keys.len(),
        0 <= id < idx.len(),
        forall|p: int, q: int| 0 <= p < q < keys.len() ==> keys[p]@ != keys[q]@,
        forall|p: int, q: int| 0 <= p < q < idx.len() ==> idx[p] != idx[q],
        idx[id as int] == keys[i as int]@,
        newp == oldp.update(id as int, i),
        forall|i2: int, id2: int|
            #![trigger keys[i2], idx[id2]]
            0 <= i2 < i && 0 <= id2 < oldp.len() && idx[id2] == keys[i2]@ ==> oldp[id2] == i2,
    ensures
        forall|i2: int, id2: int|
            #![trigger keys[i2], idx[id2]]
            0 <= i2 < i + 1 && 0 <= id2 < newp.len() && idx[id2] == keys[i2]@ ==> newp[id2] == i2,
{
    assert forall|i2: int, id2: int|
        #![trigger keys[i2], idx[id2]]
        0 <= i2 < i + 1 && 0 <= id2 < newp.len() && idx[id2] == keys[i2]@ implies newp[id2]
        == i2 by {
        if id2 == id {
            if i2 < i {
                assert(keys[i2]@ == idx[id as int]);
                assert(keys[i2]@ == keys[i as int]@);
                assert(false);
            } else {
                assert(newp[id2] == i as usize);
            }
        } else {
            assert(newp[id2] == oldp[id2]);
            if i2 == i {
                assert(idx[id2] == idx[id as int]);
                assert(false);
            }
        }
    }
}

/// Once every original index has been recorded, the inverse permutation is a
/// bijection: each id names the original index of its key, and every original
/// index is named by some id.
proof fn lemma_perm_complete(keys: Seq<Vec<u8>>, idx: Seq<Seq<u8>>, perm: Seq<usize>)
    requires
        idx.len() == keys.len(),
        perm.len() == keys.len(),
        forall|i: int| #![trigger keys[i]] 0 <= i < keys.len() ==> contains_key(idx, keys[i]@),
        forall|id: int| #![trigger idx[id]] 0 <= id < idx.len() ==> prefix_contains(
            keys,
            keys.len() as int,
            idx[id],
        ),
        forall|i2: int, id2: int|
            #![trigger keys[i2], idx[id2]]
            0 <= i2 < keys.len() && 0 <= id2 < perm.len() && idx[id2] == keys[i2]@
                ==> perm[id2] == i2,
    ensures
        forall|id: int| 0 <= id < perm.len() ==> #[trigger] perm[id] < keys.len() && idx[id]
            == keys[perm[id] as int]@,
        forall|i: int| 0 <= i < keys.len() ==> #[trigger] perm_covers(perm, i),
{
    let n = keys.len() as int;
    assert forall|id: int| 0 <= id < perm.len() implies #[trigger] perm[id] < keys.len()
        && idx[id] == keys[perm[id] as int]@ by {
        assert(prefix_contains(keys, n, idx[id]));
        let i0 = choose|i0: int| 0 <= i0 < n && keys[i0]@ == idx[id];
        assert(keys[i0] == keys[i0]);
        assert(perm[id] == i0);
    }
    assert forall|i2: int| 0 <= i2 < keys.len() implies #[trigger] perm_covers(perm, i2) by {
        assert(contains_key(idx, keys[i2]@));
        let id0 = choose|id0: int| 0 <= id0 < idx.len() && idx[id0] == keys[i2]@;
        assert(keys[i2] == keys[i2]);
        assert(0 <= id0 < perm.len() && perm[id0] == i2);
    }
}

impl Database {
    /// Construct the inverse permutation of the build: for each id, the
    /// original index of the key that resolves to it. It is a bijection over
    /// `[0, n)`: every id holds exactly one original entry, and every
    /// original entry appears in exactly one slot.
    #[verifier::rlimit(100)]
    #[verifier::loop_isolation(false)]
    pub fn build_permutation(index_struct: &PerfectHashIndex, keys: &Vec<Vec<u8>>) -> (perm: Vec<
        usize,
    >)
        requires
            forall|i: int| 0 <= i < keys@.len() ==> (#[trigger] keys@[i]@).len() == KEY_SIZE,
            forall|i: int, j: int| 0 <= i < j < keys@.len() ==> keys@[i]@ != keys@[j]@,
            index_struct.wf(),
            index_struct@.len() == keys@.len(),
            forall|i: int| #![trigger keys@[i]] 0 <= i < keys@.len() ==> contains_key(
                index_struct@,
                keys@[i]@,
            ),
            forall|id: int| #![trigger index_struct@[id]] 0 <= id < index_struct@.len()
                ==> prefix_contains(keys@, keys@.len() as int, index_struct@[id]),
        ensures
            perm@.len() == keys@.len(),
            forall|id: int| 0 <= id < perm@.len() ==> #[trigger] perm@[id] < keys@.len()
                && index_struct@[id] == keys@[perm@[id] as int]@,
            forall|i2: int, id2: int|
                #![trigger keys@[i2], index_struct@[id2]]
                0 <= i2 < keys@.len() && 0 <= id2 < perm@.len() && index_struct@[id2]
                    == keys@[i2]@ ==> perm@[id2] == i2,
            forall|i: int| 0 <= i < keys@.len() ==> #[trigger] perm_covers(perm@, i),
    {
        let n = keys.len();
        let mut perm: Vec<usize> = vec![0usize; n];
        proof {
            assert forall|p: int, q: int| 0 <= p < q < index_struct@.len() implies index_struct@[p]
                != index_struct@[q] by {
                if index_struct@[p] == index_struct@[q] {
                    lemma_lex_irrefl(index_struct@[p]);
                }
            }
        }
        let mut i: usize = 0;
        while i < n
            invariant
                perm@.len() == n,
                0 <= i <= n,
                forall|i2: int, id2: int|
                    #![trigger keys@[i2], index_struct@[id2]]
                    0 <= i2 < i && 0 <= id2 < n && index_struct@[id2] == keys@[i2]@
                        ==> perm@[id2] == i2,
            decreases n - i,
        {
            let ks = keys[i].as_slice();
            proof {
                assert(ks@ == keys@[i as int]@);
            }
            let idopt = index_struct.query(ks);
            proof {
                assert(contains_key(index_struct@, keys@[i as int]@));
                assert(idopt is Some);
            }
            let id = idopt.unwrap();
            proof {
                assert(id < index_struct@.len());
                assert(index_struct@[id as int] == keys@[i as int]@);
            }
            let ghost old_perm = perm@;
            perm[id] = i;
            proof {
                lemma_perm_step(keys@, index_struct@, old_perm, perm@, i, id);
            }
            i += 1;
        }
        proof {
            lemma_perm_complete(keys@, index_struct@, perm@);
        }
        perm
    }

    /// Lay out the data file: the encoded header, then each id's value
    /// contiguously, recording each id's offset as the running byte count.
    #[verifier::rlimit(100)]
    #[verifier::spinoff_prover]
    #[verifier::loop_isolation(false)]
    fn build_data(values: &Vec<Vec<u8>>, perm: &Vec<usize>, dh: DabaHeader) -> (r: (
        Vec<u8>,
        Vec<u64>,
    ))
        requires
            perm@.len() == values@.len(),
            forall|id: int| 0 <= id < perm@.len() ==> #[trigger] perm@[id] < values@.len(),
        ensures
            ({
                let data = r.0@;
                let offsets = r.1@;
                &&& data.len() >= 32
                &&& values@.len() == 0 ==> data.len() == 32
                &&& data.subrange(0, 32) == spec_encode_daba(dh)
                &&& offsets.len() == values@.len()
                &&& offsets.len() > 0 ==> offsets[0] == 0
                &&& forall|p: int| 0 <= p < offsets.len() ==> #[trigger] offsets[p] <= data.len()
                    - 32
                &&& forall|p: int| 0 <= p < offsets.len() ==> #[trigger] offsets[p] as int
                    + values@[perm@[p] as int]@.len() == (if p + 1 < offsets.len() {
                    offsets[p + 1] as int
                } else {
                    data.len() - 32
                })
                &&& forall|p: int| #![trigger offsets[p]] 0 <= p < offsets.len()
                    ==> data.subrange(
                    32 + offsets[p],
                    32 + (if p + 1 < offsets.len() {
                        offsets[p + 1] as int
                    } else {
                        data.len() - 32
                    }),
                ) == values@[perm@[p] as int]@
            }),
    {
        let n = values.len();
        let mut data = dh.to_bytes();
        let mut offsets: Vec<u64> = Vec::new();
        let mut id: usize = 0;
        while id < n
            invariant
                0 <= id <= n,
                offsets@.len() == id,
                data@.len() >= 32,
                id == 0 ==> data@.len() == 32,
                data@.subrange(0, 32) == spec_encode_daba(dh),
                id > 0 ==> offsets@[0] == 0,
                forall|p: int| 0 <= p < id ==> #[trigger] offsets@[p] <= data@.len() - 32,
                forall|p: int| 0 <= p < id ==> #[trigger] offsets@[p] as int + values@[
                    perm@[p] as int
                ]@.len() == (if p + 1 < id {
                    offsets@[p + 1] as int
                } else {
                    data@.len() - 32
                }),
                forall|p: int| #![trigger offsets@[p]] 0 <= p < id ==> data@.subrange(
                    32 + offsets@[p],
                    32 + (if p + 1 < id {
                        offsets@[p + 1] as int
                    } else {
                        data@.len() - 32
                    }),
                ) == values@[perm@[p] as int]@,
            decreases n - id,
        {
            let off = (data.len() - DABA_HEADER_SIZE) as u64;
            offsets.push(off);
            let ghost old_data = data@;
            push_bytes(&mut data, values[perm[id]].as_slice());
            proof {
                assert(data@.subrange(0, 32) =~= old_data.subrange(0, 32));
                assert(data@.subrange(32 + off as int, data@.len() as int) =~= values@[
                    perm@[id as int] as int
                ]@);
                assert forall|p: int| #![trigger offsets@[p]] 0 <= p < id implies data@.subrange(
                    32 + offsets@[p],
                    32 + offsets@[p + 1],
                ) == values@[perm@[p] as int]@ by {
                    assert(old_data.subrange(
                        32 + offsets@[p],
                        32 + (if p + 1 < id as int {
                            offsets@[p + 1] as int
                        } else {
                            old_data.len() - 32
                        }),
                    ) == values@[perm@[p] as int]@);
                    if p + 1 < id as int {
                        assert(data@.subrange(32 + offsets@[p], 32 + offsets@[p + 1])
                            =~= old_data.subrange(32 + offsets@[p], 32 + offsets@[p + 1]));
                    } else {
                        assert(offsets@[p + 1] == off);
                        assert(data@.subrange(32 + offsets@[p], 32 + off as int)
                            =~= old_data.subrange(32 + offsets@[p], old_data.len() as int));
                    }
                }
            }
            id += 1;
        }
        (data, offsets)
    }

    /// Lay out the index file: the encoded header, the serialized structure,
    /// the keys-in-id-order section (byte-identical to the structure), and
    /// the offsets as little-endian 64-bit integers.
    #[verifier::loop_isolation(false)]
    fn build_index_bytes(ih: IndexHeader, ser: &Vec<u8>, offsets: &Vec<u64>) -> (out: Vec<u8>)
        ensures
            out@ == spec_encode_index(ih) + ser@ + ser@ + flat_offsets(offsets@),
    {
        let n = offsets.len();
        let mut out = ih.to_bytes();
        push_bytes(&mut out, ser.as_slice());
        push_bytes(&mut out, ser.as_slice());
        let ghost pre = out@;
        let mut id: usize = 0;
        while id < n
            invariant
                0 <= id <= n,
                out@ == pre + flat_offsets(offsets@.subrange(0, id as int)),
            decreases n - id,
        {
            let mut ob = u64_to_le_bytes(offsets[id]);
            out.append(&mut ob);
            proof {
                assert(offsets@.subrange(0, id as int + 1) =~= offsets@.subrange(
                    0,
                    id as int,
                ).push(offsets@[id as int]));
                lemma_flat_offsets_push(offsets@.subrange(0, id as int), offsets@[id as int]);
            }
            id += 1;
        }
        proof {
            assert(offsets@.subrange(0, n as int) =~= offsets@);
        }
        out
    }

    /// Build the on-disk artifacts for a set of distinct 16-byte keys and
    /// their values, in any matching order: the data file (header, then the
    /// values laid contiguously in id order) and the index file (header,
    /// serialized perfect-hash structure, keys in id order, offsets in id
    /// order). The pair opens successfully and stores exactly the input map.
    #[verifier::rlimit(100)]
    pub fn write_database(keys: &Vec<Vec<u8>>, values: &Vec<Vec<u8>>, version: u32) -> (r: (
        Vec<u8>,
        Vec<u8>,
    ))
        requires
            keys@.len() == values@.len(),
            forall|i: int| 0 <= i < keys@.len() ==> (#[trigger] keys@[i]@).len() == KEY_SIZE,
            forall|i: int, j: int| 0 <= i < j < keys@.len() ==> keys@[i]@ != keys@[j]@,
            40 * keys@.len() + 40 <= u64::MAX,
        ensures
            spec_build_ok(keys@, values@, version, r.0@, r.1@),
    {
        let n = keys.len();
        let index_struct = PerfectHashIndex::build(keys);
        let perm = Database::build_permutation(&index_struct, keys);
        let dh = DabaHeader {
            version,
            num_keys: n as u64,
            key_size: KEY_SIZE as u64,
            values_start: DABA_HEADER_SIZE as u64,
        };
        let (data, offsets) = Database::build_data(values, &perm, dh);
        let ser = index_struct.serialize();
        proof {
            lemma_flat_uniform(index_struct@);
            assert(16 * (n as int) <= 40 * (n as int)) by (nonlinear_arith);
            assert(32 * (n as int) <= 40 * (n as int)) by (nonlinear_arith);
        }
        let ser_len = ser.len();
        let ih = IndexHeader {
            version,
            num_keys: n as u64,
            mphf_size: ser_len as u64,
            keys_offset: 40 + ser_len as u64,
            offsets_offset: 40 + 2 * (ser_len as u64),
        };
        let index_bytes = Database::build_index_bytes(ih, &ser, &offsets);
        proof {
            lemma_flat_offsets_parse(offsets@);
            assert forall|p: int| 0 <= p < offsets@.len() - 1 implies #[trigger] offsets@[p]
                <= offsets@[p + 1] by {
                assert(offsets@[p] as int + values@[perm@[p] as int]@.len() == offsets@[p
                    + 1] as int);
            }
            lemma_build_open_ok(dh, ih, index_struct@, offsets@, ser@, data@, index_bytes@);
            let m = spec_open(data@, index_bytes@).unwrap();
            lemma_build_slots(keys@, values@, perm@, offsets@, index_struct@, data@);
            assert(ih.mphf_size == (16 * keys@.len()) as u64);
            assert(ih.keys_offset == (40 + 16 * keys@.len()) as u64);
            assert(ih.offsets_offset == (40 + 32 * keys@.len()) as u64);
            assert(spec_build_ok(keys@, values@, version, data@, index_bytes@));
        }
        (data, index_bytes)
    }
}

/// Bytes laid out by the build decode and validate back into exactly the
/// header, keys and offsets they were built from.
#[verifier::rlimit(100)]
proof fn lemma_build_open_ok(
    dh: DabaHeader,
    ih: IndexHeader,
    idx: Seq<Seq<u8>>,
    offsets: Seq<u64>,
    ser: Seq<u8>,
    data: Seq<u8>,
    index: Seq<u8>,
)
    requires
        dh.num_keys == idx.len(),
        dh.key_size == KEY_SIZE as u64,
        dh.values_start == DABA_HEADER_SIZE as u64,
        forall|i: int| 0 <= i < idx.len() ==> (#[trigger] idx[i]).len() == KEY_SIZE,
        forall|i: int, j: int| 0 <= i < j < idx.len() ==> lex_lt(idx[i], idx[j]),
        offsets.len() == idx.len(),
        offsets.len() > 0 ==> offsets[0] == 0,
        forall|p: int| 0 <= p < offsets.len() ==> #[trigger] offsets[p] <= data.len() - 32,
        forall|p: int| 0 <= p < offsets.len() - 1 ==> #[trigger] offsets[p] <= offsets[p + 1],
        ser == flat_keys(idx),
        ser.len() == KEY_SIZE * idx.len(),
        forall|i: int| 0 <= i < idx.len() ==> #[trigger] chunk16(ser, i) == idx[i],
        ih == (IndexHeader {
            version: dh.version,
            num_keys: dh.num_keys,
            mphf_size: ser.len() as u64,
            keys_offset: (40 + ser.len()) as u64,
            offsets_offset: (40 + 2 * ser.len()) as u64,
        }),
        40 * idx.len() + 40 <= u64::MAX,
        data.len() >= 32,
        data.subrange(0, 32) == spec_encode_daba(dh),
        index == spec_encode_index(ih) + ser + ser + flat_offsets(offsets),
        flat_offsets(offsets).len() == 8 * offsets.len(),
        spec_parse_offsets(flat_offsets(offsets), offsets.len() as int) == offsets,
    ensures
        spec_open(data, index) == Ok::<DbSpec, FormatError>(DbSpec {
            header: dh,
            keys: idx,
            offsets,
        }),
        spec_decode_index(index) == Ok::<IndexHeader, FormatError>(ih),
{
    let n = idx.len() as int;
    lemma_auto_spec_u32_to_from_le_bytes();
    lemma_auto_spec_u64_to_from_le_bytes();
    assert(spec_encode_daba(dh).len() == 32);
    assert(spec_encode_index(ih).len() == 40);
    lemma_decode_daba_prefix(dh, data);
    assert(index.subrange(0, 40) =~= spec_encode_index(ih));
    lemma_decode_index_prefix(ih, index);
    assert(index.len() == 40 + 40 * n);
    let sreg = index.subrange(40, 40 + 16 * n);
    let kreg = index.subrange(40 + 16 * n, 40 + 32 * n);
    let oreg = index.subrange(40 + 32 * n, 40 + 40 * n);
    assert(sreg =~= ser);
    assert(kreg =~= ser);
    assert(oreg =~= flat_offsets(offsets));
    assert forall|i: int, j: int| 0 <= i < j < n implies lex_lt(
        chunk16(sreg, i),
        chunk16(sreg, j),
    ) by {
        assert(chunk16(ser, i) == idx[i]);
        assert(chunk16(ser, j) == idx[j]);
    }
    assert(chunks_sorted(sreg, n));
    let offs = spec_parse_offsets(oreg, n);
    assert(offs == offsets);
    assert(offsets_ok(offs, data.len() - dh.values_start));
    assert(spec_open(data, index) is Ok);
    let m = spec_open(data, index).unwrap();
    assert(m.header == dh);
    assert(m.keys =~= idx);
    assert(m.offsets == offsets);
}

/// In the built data file, the slot of every stored key holds exactly that
/// key's input value.
proof fn lemma_build_slots(
    keys: Seq<Vec<u8>>,
    values: Seq<Vec<u8>>,
    perm: Seq<usize>,
    offsets: Seq<u64>,
    idx: Seq<Seq<u8>>,
    data: Seq<u8>,
)
    requires
        keys.len() == values.len(),
        forall|i: int, j: int| 0 <= i < j < keys.len() ==> keys[i]@ != keys[j]@,
        idx.len() == keys.len(),
        perm.len() == keys.len(),
        forall|id: int| 0 <= id < perm.len() ==> #[trigger] perm[id] < keys.len() && idx[id]
            == keys[perm[id] as int]@,
        offsets.len() == keys.len(),
        forall|p: int| #![trigger offsets[p]] 0 <= p < offsets.len() ==> data.subrange(
            32 + offsets[p],
            32 + (if p + 1 < offsets.len() {
                offsets[p + 1] as int
            } else {
                data.len() - 32
            }),
        ) == values[perm[p] as int]@,
    ensures
        forall|i: int, id: int|
            #![trigger keys[i], idx[id]]
            0 <= i < keys.len() && 0 <= id < idx.len() && idx[id] == keys[i]@ ==> spec_slot(
                data,
                DABA_HEADER_SIZE as int,
                offsets,
                id,
            ) == values[i]@,
{
    assert forall|i: int, id: int|
        #![trigger keys[i], idx[id]]
        0 <= i < keys.len() && 0 <= id < idx.len() && idx[id] == keys[i]@ implies spec_slot(
        data,
        DABA_HEADER_SIZE as int,
        offsets,
        id,
    ) == values[i]@ by {
        assert(idx[id] == keys[perm[id] as int]@);
        assert(keys[i]@ == keys[perm[id] as int]@);
        if i != perm[id] as int {
            assert(false);
        }
        assert(data.subrange(
            32 + offsets[id],
            32 + (if id + 1 < offsets.len() {
                offsets[id + 1] as int
            } else {
                data.len() - 32
            }),
        ) == values[perm[id] as int]@);
    }
}

/// Law: round trip. Opening the two artifacts that `write_database` produced
/// from a key/value set yields a database that holds every input key, with
/// the value slot of each stored key holding exactly that key's input value;
/// by `get`'s contract, `get` on any input key then returns exactly its
/// original value.
pub proof fn lemma_round_trip(
    keys: Seq<Vec<u8>>,
    values: Seq<Vec<u8>>,
    version: u32,
    data: Seq<u8>,
    index: Seq<u8>,
    db: Database,
)
    requires
        spec_build_ok(keys, values, version, data, index),
        spec_opened(db, data, index),
    ensures
        forall|i: int| #![trigger keys[i]] 0 <= i < keys.len() ==> contains_key(
            db.index@,
            keys[i]@,
        ),
        forall|i: int, id: int|
            #![trigger keys[i], db.index@[id]]
            0 <= i < keys.len() && 0 <= id < db.index@.len() && db.index@[id] == keys[i]@
                ==> db.slot(id) == values[i]@,
{
    let m = spec_open(data, index).unwrap();
    assert(db.index@ == m.keys);
    assert(db.offsets@ == m.offsets);
    assert(db.header == m.header);
    assert(db.data@ == data);
    assert(db.header.values_start == DABA_HEADER_SIZE as u64);
    assert forall|i: int, id: int|
        #![trigger keys[i], db.index@[id]]
        0 <= i < keys.len() && 0 <= id < db.index@.len() && db.index@[id] == keys[i]@ implies
        db.slot(id) == values[i]@ by {
        assert(m.keys[id] == keys[i]@);
        assert(spec_slot(data, DABA_HEADER_SIZE as int, m.offsets, id) == values[i]@);
    }
}

/// Law: absence. A key that is not in the build set is not among the stored
/// keys of the opened database; by `get`'s contract, `get` on it then returns
/// `None` — it never returns another key's value.
pub proof fn lemma_absent_key(
    keys: Seq<Vec<u8>>,
    values: Seq<Vec<u8>>,
    version: u32,
    data: Seq<u8>,
    index: Seq<u8>,
    db: Database,
    q: Seq<u8>,
)
    requires
        spec_build_ok(keys, values, version, data, index),
        spec_opened(db, data, index),
        forall|i: int| 0 <= i < keys.len() ==> (#[trigger] keys[i]@) != q,
    ensures
        !contains_key(db.index@, q),
{
    let m = spec_open(data, index).unwrap();
    if contains_key(db.index@, q) {
        let id = choose|id: int| 0 <= id < db.index@.len() && db.index@[id] == q;
        assert(m.keys[id] == q);
        assert(prefix_contains(keys, keys.len() as int, m.keys[id]));
        let i = choose|i: int| 0 <= i < keys.len() && keys[i]@ == m.keys[id];
        assert(keys[i]@ == q);
        assert(false);
    }
}

} // verus!
