//! The table's row type, the stored row wrapper (row plus tombstone flag and
//! per-field lock tokens), and the wrapper's byte codec. The serialized form
//! written to a data page is the wrapper, not the raw row.

use vstd::prelude::*;
use vstd::bytes::*;
use crate::page::DataExecutionError;

verus! {

/// Bytes of the wrapper's fixed-length prefix: tombstone flag, the three
/// integer columns, the four lock tokens, and the length of `exchange`.
pub const WRAPPER_FIXED_SIZE: usize = 37;

/// A row of the table: an auto-incremented primary key `id`, a unique
/// secondary key `test`, a plain column `another`, and a non-unique
/// secondary key `exchange` held as its UTF-8 bytes.
#[derive(Clone, Debug)]
pub struct TestRow {
    pub id: u64,
    pub test: i64,
    pub another: u64,
    pub exchange: Vec<u8>,
}

/// The mathematical value of a row.
pub ghost struct RowModel {
    pub id: u64,
    pub test: i64,
    pub another: u64,
    pub exchange: Seq<u8>,
}

impl View for TestRow {
    type V = RowModel;

    open spec fn view(&self) -> RowModel {
        RowModel { id: self.id, test: self.test, another: self.another, exchange: self.exchange@ }
    }
}

/// Compares two byte vectors by contents.
pub fn bytes_eq(a: &Vec<u8>, b: &Vec<u8>) -> (r: bool)
    ensures
        r == (a@ == b@),
{
    if a.len() != b.len() {
        proof {
            assert(a@ != b@);
        }
        return false;
    }
    let mut i: usize = 0;
    while i < a.len()
        invariant
            i <= a@.len(),
            a@.len() == b@.len(),
            forall|k: int| 0 <= k < i ==> a@[k] == b@[k],
        decreases a@.len() - i,
    {
        if a[i] != b[i] {
            return false;
        }
        i = i + 1;
    }
    proof {
        assert(a@ =~= b@);
    }
    true
}

impl PartialEq for TestRow {
    fn eq(&self, other: &TestRow) -> (r: bool) {
        self.id == other.id && self.test == other.test && self.another == other.another
            && bytes_eq(&self.exchange, &other.exchange)
    }
}

impl vstd::std_specs::cmp::PartialEqSpecImpl for TestRow {
    open spec fn obeys_eq_spec() -> bool {
        true
    }

    open spec fn eq_spec(&self, other: &TestRow) -> bool {
        self@ == other@
    }
}

/// A row type that exposes its primary key, as the schema facade's rows do.
pub trait TableRow<Pk> {
    /// The key the row is stored under.
    spec fn spec_primary_key(&self) -> Pk;

    /// Returns the row's primary key.
    fn get_primary_key(&self) -> (r: Pk)
        ensures
            r == self.spec_primary_key(),
    ;
}

impl TableRow<u64> for TestRow {
    open spec fn spec_primary_key(&self) -> u64 {
        self.id
    }

    fn get_primary_key(&self) -> (r: u64)
        ensures
            r == self.id,
    {
        self.id
    }
}

/// Associates a row type with the wrapper the pages store for it.
pub trait StorableRow {
    type WrappedRow;
}

impl StorableRow for TestRow {
    type WrappedRow = TestRowWrapper;
}

/// The stored form of a row: the row itself, the tombstone flag, and one
/// atomic lock token per column, all serialized together in the page.
#[derive(Clone, Debug)]
pub struct TestRowWrapper {
    pub inner: TestRow,
    pub is_deleted: bool,
    pub id_lock: u16,
    pub test_lock: u16,
    pub another_lock: u16,
    pub exchange_lock: u16,
}

/// The mathematical value of a stored row wrapper.
pub ghost struct WrapperModel {
    pub inner: RowModel,
    pub is_deleted: bool,
    pub id_lock: u16,
    pub test_lock: u16,
    pub another_lock: u16,
    pub exchange_lock: u16,
}

impl View for TestRowWrapper {
    type V = WrapperModel;

    open spec fn view(&self) -> WrapperModel {
        WrapperModel {
            inner: self.inner@,
            is_deleted: self.is_deleted,
            id_lock: self.id_lock,
            test_lock: self.test_lock,
            another_lock: self.another_lock,
            exchange_lock: self.exchange_lock,
        }
    }
}

/// Serialized length of a wrapper.
pub open spec fn spec_enc_len(m: WrapperModel) -> int {
    WRAPPER_FIXED_SIZE + m.inner.exchange.len()
}

/// The wrapper's wire form: tombstone byte, `id`, `test` (two's complement),
/// `another`, the four lock tokens, the length of `exchange`, then the
/// `exchange` bytes, every integer little-endian.
pub open spec fn spec_enc_wrapper(m: WrapperModel) -> Seq<u8> {
    seq![if m.is_deleted { 1u8 } else { 0u8 }] + spec_u64_to_le_bytes(m.inner.id)
        + spec_u64_to_le_bytes(m.inner.test as u64) + spec_u64_to_le_bytes(m.inner.another)
        + spec_u16_to_le_bytes(m.id_lock) + spec_u16_to_le_bytes(m.test_lock)
        + spec_u16_to_le_bytes(m.another_lock) + spec_u16_to_le_bytes(m.exchange_lock)
        + spec_u32_to_le_bytes(m.inner.exchange.len() as u32) + m.inner.exchange
}

/// Reads a wrapper back from its wire form; `None` on any malformed input.
pub open spec fn spec_dec_wrapper(s: Seq<u8>) -> Option<WrapperModel> {
    if s.len() < WRAPPER_FIXED_SIZE {
        None
    } else if s.len() != WRAPPER_FIXED_SIZE + spec_u32_from_le_bytes(s.subrange(33, 37)) {
        None
    } else {
        Some(
            WrapperModel {
                inner: RowModel {
                    id: spec_u64_from_le_bytes(s.subrange(1, 9)),
                    test: spec_u64_from_le_bytes(s.subrange(9, 17)) as i64,
                    another: spec_u64_from_le_bytes(s.subrange(17, 25)),
                    exchange: s.subrange(37, s.len() as int),
                },
                is_deleted: s[0] != 0,
                id_lock: spec_u16_from_le_bytes(s.subrange(25, 27)),
                test_lock: spec_u16_from_le_bytes(s.subrange(27, 29)),
                another_lock: spec_u16_from_le_bytes(s.subrange(29, 31)),
                exchange_lock: spec_u16_from_le_bytes(s.subrange(31, 33)),
            },
        )
    }
}

/// Decoding inverts encoding: the codec loses nothing.
pub proof fn lemma_wrapper_codec_roundtrip(m: WrapperModel)
    requires
        m.inner.exchange.len() <= u32::MAX,
    ensures
        spec_enc_wrapper(m).len() == spec_enc_len(m),
        spec_dec_wrapper(spec_enc_wrapper(m)) == Some(m),
{
    lemma_auto_spec_u16_to_from_le_bytes();
    lemma_auto_spec_u32_to_from_le_bytes();
    lemma_auto_spec_u64_to_from_le_bytes();
    let s = spec_enc_wrapper(m);
    assert(s.subrange(1, 9) =~= spec_u64_to_le_bytes(m.inner.id));
    assert(s.subrange(9, 17) =~= spec_u64_to_le_bytes(m.inner.test as u64));
    assert(s.subrange(17, 25) =~= spec_u64_to_le_bytes(m.inner.another));
    assert(s.subrange(25, 27) =~= spec_u16_to_le_bytes(m.id_lock));
    assert(s.subrange(27, 29) =~= spec_u16_to_le_bytes(m.test_lock));
    assert(s.subrange(29, 31) =~= spec_u16_to_le_bytes(m.another_lock));
    assert(s.subrange(31, 33) =~= spec_u16_to_le_bytes(m.exchange_lock));
    assert(s.subrange(33, 37) =~= spec_u32_to_le_bytes(m.inner.exchange.len() as u32));
    assert(s.subrange(37, s.len() as int) =~= m.inner.exchange);
    let t = m.inner.test;
    assert(((t as u64) as i64) == t) by (bit_vector);
    assert(spec_dec_wrapper(s)->Some_0 == m);
}

/// The stored form of a row: what wraps a row before it goes to a page and
/// what hands the row back after a read.
pub trait RowWrapper<Row> {
    /// The row the wrapper carries.
    spec fn spec_inner(&self) -> Row;

    /// Wraps a freshly inserted row.
    fn from_inner(inner: Row) -> (r: Self) where Self: core::marker::Sized
        ensures
            r.spec_inner() == inner,
    ;

    /// Unwraps the stored row.
    fn get_inner(self) -> (r: Row) where Self: core::marker::Sized
        ensures
            r == self.spec_inner(),
    ;
}

impl RowWrapper<TestRow> for TestRowWrapper {
    open spec fn spec_inner(&self) -> TestRow {
        self.inner
    }

    fn from_inner(inner: TestRow) -> (r: Self)
        ensures
            r.inner == inner,
            !r.is_deleted,
            r.id_lock == 0 && r.test_lock == 0 && r.another_lock == 0 && r.exchange_lock == 0,
    {
        TestRowWrapper {
            inner,
            is_deleted: false,
            id_lock: 0,
            test_lock: 0,
            another_lock: 0,
            exchange_lock: 0,
        }
    }

    fn get_inner(self) -> (r: TestRow)
        ensures
            r == self.inner,
    {
        self.inner
    }
}

impl TestRowWrapper {
    /// Serializes the wrapper to its wire form.
    pub fn encode(&self) -> (r: Vec<u8>)
        requires
            self.inner.exchange@.len() <= u32::MAX,
        ensures
            r@ == spec_enc_wrapper(self@),
            r@.len() == spec_enc_len(self@),
    {
        proof {
            lemma_wrapper_codec_roundtrip(self@);
        }
        let mut r: Vec<u8> = Vec::new();
        r.push(if self.is_deleted { 1u8 } else { 0u8 });
        let mut b = u64_to_le_bytes(self.inner.id);
        r.append(&mut b);
        let mut b = u64_to_le_bytes(self.inner.test as u64);
        r.append(&mut b);
        let mut b = u64_to_le_bytes(self.inner.another);
        r.append(&mut b);
        let mut b = u16_to_le_bytes(self.id_lock);
        r.append(&mut b);
        let mut b = u16_to_le_bytes(self.test_lock);
        r.append(&mut b);
        let mut b = u16_to_le_bytes(self.another_lock);
        r.append(&mut b);
        let mut b = u16_to_le_bytes(self.exchange_lock);
        r.append(&mut b);
        let mut b = u32_to_le_bytes(self.inner.exchange.len() as u32);
        r.append(&mut b);
        let ghost prefix = r@;
        let mut i: usize = 0;
        while i < self.inner.exchange.len()
            invariant
                i <= self.inner.exchange@.len(),
                r@ == prefix + self.inner.exchange@.subrange(0, i as int),
            decreases self.inner.exchange@.len() - i,
        {
            r.push(self.inner.exchange[i]);
            proof {
                assert(r@ =~= prefix + self.inner.exchange@.subrange(0, i + 1));
            }
            i = i + 1;
        }
        proof {
            assert(self.inner.exchange@.subrange(0, self.inner.exchange@.len() as int)
                =~= self.inner.exchange@);
            assert(r@ =~= spec_enc_wrapper(self@));
        }
        r
    }

    /// Reads a wrapper back from its wire form; fails with
    /// `DeserializeError` exactly when the bytes are malformed.
    pub fn decode(bytes: &[u8]) -> (r: Result<TestRowWrapper, DataExecutionError>)
        ensures
            match r {
                Ok(w) => spec_dec_wrapper(bytes@) == Some(w@),
                Err(e) => spec_dec_wrapper(bytes@) is None && e
                    == DataExecutionError::DeserializeError,
            },
    {
        if bytes.len() < WRAPPER_FIXED_SIZE {
            return Err(DataExecutionError::DeserializeError);
        }
        let xlen = u32_from_le_bytes(vstd::slice::slice_subrange(bytes, 33, 37));
        if bytes.len() - WRAPPER_FIXED_SIZE != xlen as usize {
            return Err(DataExecutionError::DeserializeError);
        }
        let is_deleted = *vstd::slice::slice_index_get(bytes, 0) != 0;
        let id = u64_from_le_bytes(vstd::slice::slice_subrange(bytes, 1, 9));
        let test = u64_from_le_bytes(vstd::slice::slice_subrange(bytes, 9, 17)) as i64;
        let another = u64_from_le_bytes(vstd::slice::slice_subrange(bytes, 17, 25));
        let id_lock = u16_from_le_bytes(vstd::slice::slice_subrange(bytes, 25, 27));
        let test_lock = u16_from_le_bytes(vstd::slice::slice_subrange(bytes, 27, 29));
        let another_lock = u16_from_le_bytes(vstd::slice::slice_subrange(bytes, 29, 31));
        let exchange_lock = u16_from_le_bytes(vstd::slice::slice_subrange(bytes, 31, 33));
        let exchange = vstd::slice::slice_to_vec(
            vstd::slice::slice_subrange(bytes, WRAPPER_FIXED_SIZE, bytes.len()),
        );
        Ok(
            TestRowWrapper {
                inner: TestRow { id, test, another, exchange },
                is_deleted,
                id_lock,
                test_lock,
                another_lock,
                exchange_lock,
            },
        )
    }
}

} // verus!
