use vstd::prelude::*;
use vstd::array::array_as_slice;
use vstd::slice::slice_subrange;

verus! {

/// Counts of members and of bytes, as the records hold them.
pub type LenType = u32;

/// Lengths of field names.
pub type BytesType = i64;

/// Bytes that a `LenType` takes in a record.
pub const BYTES_LEN_TYPE: usize = 4;

/// Which end of a list a command works on.
#[derive(Clone, Copy, Debug, PartialEq, Eq)]
pub enum Direction {
    Left,
    Right,
}

/// The number that two bytes spell, least significant byte first.
pub open spec fn le16(b: Seq<u8>) -> int
    recommends
        b.len() >= 2,
{
    b[0] as int + 256 * (b[1] as int)
}

/// The number that four bytes spell, least significant byte first.
pub open spec fn le32(b: Seq<u8>) -> int
    recommends
        b.len() >= 4,
{
    b[0] as int + 256 * (b[1] as int) + 65536 * (b[2] as int) + 16777216 * (b[3] as int)
}

/// The number that eight bytes spell, least significant byte first.
pub open spec fn le64(b: Seq<u8>) -> int
    recommends
        b.len() >= 8,
{
    le32(b) + 4294967296 * le32(b.skip(4))
}

/// The lowest byte of `v`.
pub open spec fn low_byte(v: int) -> u8 {
    (v % 256) as u8
}

/// The two bytes that spell `v`, least significant byte first.
pub open spec fn le16_bytes(v: int) -> Seq<u8> {
    seq![low_byte(v), low_byte(v / 256)]
}

/// The four bytes that spell `v`, least significant byte first.
pub open spec fn le32_bytes(v: int) -> Seq<u8> {
    seq![low_byte(v), low_byte(v / 256), low_byte(v / 256 / 256), low_byte(v / 256 / 256 / 256)]
}

/// The eight bytes that spell `v`, least significant byte first.
pub open spec fn le64_bytes(v: int) -> Seq<u8> {
    le32_bytes(v % 4294967296) + le32_bytes(v / 4294967296)
}

/// A number below 256 and a multiple of 256 are found again in their sum.
proof fn lemma_split_byte(lo: int, hi: int)
    requires
        0 <= lo < 256,
    ensures
        (lo + 256 * hi) % 256 == lo,
        (lo + 256 * hi) / 256 == hi,
{
}

/// A number of four bytes and a multiple of what four bytes hold are
/// found again in their sum.
proof fn lemma_split_words(lo: int, hi: int)
    requires
        0 <= lo < 4294967296,
    ensures
        (lo + 4294967296 * hi) % 4294967296 == lo,
        (lo + 4294967296 * hi) / 4294967296 == hi,
{
}

/// Reading back what `le16_bytes` wrote gives the number again.
pub proof fn lemma_le16_of_bytes(v: int)
    requires
        0 <= v < 65536,
    ensures
        le16_bytes(v).len() == 2,
        le16(le16_bytes(v)) == v,
{
}

/// Writing what `le16` read gives the bytes again.
pub proof fn lemma_le16_bytes_of(b: Seq<u8>)
    requires
        b.len() == 2,
    ensures
        0 <= le16(b) < 65536,
        le16_bytes(le16(b)) == b,
{
    lemma_split_byte(b[0] as int, b[1] as int);
    assert(le16_bytes(le16(b)) =~= b);
}

/// Reading back what `le32_bytes` wrote gives the number again.
pub proof fn lemma_le32_of_bytes(v: int)
    requires
        0 <= v < 4294967296,
    ensures
        le32_bytes(v).len() == 4,
        le32(le32_bytes(v)) == v,
{
    let q1 = v / 256;
    let q2 = q1 / 256;
    let q3 = q2 / 256;
    assert(v == v % 256 + 256 * q1);
    assert(q1 == q1 % 256 + 256 * q2);
    assert(q2 == q2 % 256 + 256 * q3);
    assert(0 <= q3 < 256);
}

/// Writing what `le32` read gives the bytes again.
pub proof fn lemma_le32_bytes_of(b: Seq<u8>)
    requires
        b.len() == 4,
    ensures
        0 <= le32(b) < 4294967296,
        le32_bytes(le32(b)) == b,
{
    let v = le32(b);
    let t2 = b[2] as int + 256 * (b[3] as int);
    let t1 = b[1] as int + 256 * t2;
    assert(v == b[0] as int + 256 * t1);
    lemma_split_byte(b[0] as int, t1);
    lemma_split_byte(b[1] as int, t2);
    lemma_split_byte(b[2] as int, b[3] as int);
    assert(v / 256 == t1);
    assert(v / 256 / 256 == t2);
    assert(v / 256 / 256 / 256 == b[3] as int);
    assert(le32_bytes(v) =~= b);
}

/// Reading back what `le64_bytes` wrote gives the number again.
pub proof fn lemma_le64_of_bytes(v: int)
    requires
        0 <= v < 18446744073709551616,
    ensures
        le64_bytes(v).len() == 8,
        le64(le64_bytes(v)) == v,
{
    let lo = v % 4294967296;
    let hi = v / 4294967296;
    lemma_le32_of_bytes(lo);
    lemma_le32_of_bytes(hi);
    assert(le64_bytes(v).skip(4) =~= le32_bytes(hi));
    assert(le32(le64_bytes(v)) == le32(le32_bytes(lo)));
}

/// Writing what `le64` read gives the bytes again.
pub proof fn lemma_le64_bytes_of(b: Seq<u8>)
    requires
        b.len() == 8,
    ensures
        0 <= le64(b) < 18446744073709551616,
        le64_bytes(le64(b)) == b,
{
    let lo = b.subrange(0, 4);
    let hi = b.skip(4);
    lemma_le32_bytes_of(lo);
    lemma_le32_bytes_of(hi);
    assert(le32(b) == le32(lo));
    lemma_split_words(le32(lo), le32(hi));
    assert(le64_bytes(le64(b)) == le32_bytes(le32(lo)) + le32_bytes(le32(hi)));
    assert(lo + hi =~= b);
}

/// An integer that the records hold in little-endian byte order, whatever
/// the order of the machine.
pub trait EndianScalar: Sized + Copy {
    /// How many bytes a value takes.
    spec fn width() -> nat;

    /// The bytes that spell the value, least significant byte first.
    spec fn le_bytes(self) -> Seq<u8>;

    /// The value that `width()` bytes spell.
    spec fn from_le(b: Seq<u8>) -> Self;

    /// A value spells `width()` bytes, and they spell it.
    proof fn lemma_read_written(self)
        ensures
            self.le_bytes().len() == Self::width(),
            Self::from_le(self.le_bytes()) == self,
    ;

    /// Any `width()` bytes are the spelling of the value they spell.
    proof fn lemma_written_read(b: Seq<u8>)
        requires
            b.len() == Self::width(),
        ensures
            Self::from_le(b).le_bytes() == b,
    ;

    /// How many bytes a value takes, for the running program.
    fn size() -> (n: usize)
        ensures
            n == Self::width(),
    ;

    /// Writes the value over the first `width()` bytes.
    fn to_little_endian(self, bytes: &mut [u8])
        requires
            old(bytes)@.len() >= Self::width(),
        ensures
            final(bytes)@ == self.le_bytes() + old(bytes)@.skip(Self::width() as int),
    ;

    /// Reads the value that the first `width()` bytes spell.
    fn from_little_endian(bytes: &[u8]) -> (r: Self)
        requires
            bytes@.len() >= Self::width(),
        ensures
            r == Self::from_le(bytes@.subrange(0, Self::width() as int)),
    ;
}

impl EndianScalar for u16 {
    open spec fn width() -> nat {
        2
    }

    open spec fn le_bytes(self) -> Seq<u8> {
        le16_bytes(self as int)
    }

    open spec fn from_le(b: Seq<u8>) -> u16 {
        le16(b) as u16
    }

    proof fn lemma_read_written(self) {
        lemma_le16_of_bytes(self as int);
    }

    proof fn lemma_written_read(b: Seq<u8>) {
        lemma_le16_bytes_of(b);
    }

    fn size() -> (n: usize) {
        2
    }

    fn to_little_endian(self, bytes: &mut [u8]) {
        bytes[0] = (self % 256) as u8;
        bytes[1] = (self / 256) as u8;
        assert(bytes@ =~= self.le_bytes() + old(bytes)@.skip(2));
    }

    fn from_little_endian(bytes: &[u8]) -> (r: u16) {
        let b0: u16 = bytes[0] as u16;
        let b1: u16 = bytes[1] as u16;
        b0 + b1 * 256
    }
}

impl EndianScalar for u32 {
    open spec fn width() -> nat {
        4
    }

    open spec fn le_bytes(self) -> Seq<u8> {
        le32_bytes(self as int)
    }

    open spec fn from_le(b: Seq<u8>) -> u32 {
        le32(b) as u32
    }

    proof fn lemma_read_written(self) {
        lemma_le32_of_bytes(self as int);
    }

    proof fn lemma_written_read(b: Seq<u8>) {
        lemma_le32_bytes_of(b);
    }

    fn size() -> (n: usize) {
        4
    }

    fn to_little_endian(self, bytes: &mut [u8]) {
        let q1: u32 = self / 256;
        let q2: u32 = q1 / 256;
        let q3: u32 = q2 / 256;
        bytes[0] = (self % 256) as u8;
        bytes[1] = (q1 % 256) as u8;
        bytes[2] = (q2 % 256) as u8;
        bytes[3] = (q3 % 256) as u8;
        assert(bytes@ =~= self.le_bytes() + old(bytes)@.skip(4));
    }

    fn from_little_endian(bytes: &[u8]) -> (r: u32) {
        let b0: u32 = bytes[0] as u32;
        let b1: u32 = bytes[1] as u32;
        let b2: u32 = bytes[2] as u32;
        let b3: u32 = bytes[3] as u32;
        b0 + b1 * 256 + b2 * 65536 + b3 * 16777216
    }
}

impl EndianScalar for u64 {
    open spec fn width() -> nat {
        8
    }

    open spec fn le_bytes(self) -> Seq<u8> {
        le64_bytes(self as int)
    }

    open spec fn from_le(b: Seq<u8>) -> u64 {
        le64(b) as u64
    }

    proof fn lemma_read_written(self) {
        lemma_le64_of_bytes(self as int);
    }

    proof fn lemma_written_read(b: Seq<u8>) {
        lemma_le64_bytes_of(b);
    }

    fn size() -> (n: usize) {
        8
    }

    fn to_little_endian(self, bytes: &mut [u8]) {
        let lo: u64 = self % 4294967296;
        let hi: u64 = self / 4294967296;
        let l1: u64 = lo / 256;
        let l2: u64 = l1 / 256;
        let l3: u64 = l2 / 256;
        let h1: u64 = hi / 256;
        let h2: u64 = h1 / 256;
        let h3: u64 = h2 / 256;
        bytes[0] = (lo % 256) as u8;
        bytes[1] = (l1 % 256) as u8;
        bytes[2] = (l2 % 256) as u8;
        bytes[3] = (l3 % 256) as u8;
        bytes[4] = (hi % 256) as u8;
        bytes[5] = (h1 % 256) as u8;
        bytes[6] = (h2 % 256) as u8;
        bytes[7] = (h3 % 256) as u8;
        assert(bytes@ =~= self.le_bytes() + old(bytes)@.skip(8));
    }

    fn from_little_endian(bytes: &[u8]) -> (r: u64) {
        let b0: u64 = bytes[0] as u64;
        let b1: u64 = bytes[1] as u64;
        let b2: u64 = bytes[2] as u64;
        let b3: u64 = bytes[3] as u64;
        let b4: u64 = bytes[4] as u64;
        let b5: u64 = bytes[5] as u64;
        let b6: u64 = bytes[6] as u64;
        let b7: u64 = bytes[7] as u64;
        let lo: u64 = b0 + b1 * 256 + b2 * 65536 + b3 * 16777216;
        let hi: u64 = b4 + b5 * 256 + b6 * 65536 + b7 * 16777216;
        assert(le32(bytes@.subrange(0, 8)) == lo);
        assert(le32(bytes@.subrange(0, 8).skip(4)) == hi);
        lo + hi * 4294967296
    }
}

/// The unsigned number with the bits of `v`, in two's complement.
pub open spec fn i16_bits(v: i16) -> int {
    if v >= 0 {
        v as int
    } else {
        v + 65536
    }
}

impl EndianScalar for i16 {
    open spec fn width() -> nat {
        2
    }

    open spec fn le_bytes(self) -> Seq<u8> {
        le16_bytes(i16_bits(self))
    }

    open spec fn from_le(b: Seq<u8>) -> i16 {
        if le16(b) < 32768 {
            le16(b) as i16
        } else {
            (le16(b) - 65536) as i16
        }
    }

    proof fn lemma_read_written(self) {
        lemma_le16_of_bytes(i16_bits(self));
    }

    proof fn lemma_written_read(b: Seq<u8>) {
        lemma_le16_bytes_of(b);
    }

    fn size() -> (n: usize) {
        2
    }

    fn to_little_endian(self, bytes: &mut [u8]) {
        let bits: u16 = if self >= 0 {
            self as u16
        } else {
            (self + i16::MAX + 1) as u16 + 32768
        };
        bits.to_little_endian(bytes);
    }

    fn from_little_endian(bytes: &[u8]) -> (r: i16) {
        let bits: u16 = u16::from_little_endian(bytes);
        if bits < 32768 {
            bits as i16
        } else {
            (bits - 32768) as i16 - i16::MAX - 1
        }
    }
}

/// The unsigned number with the bits of `v`, in two's complement.
pub open spec fn i32_bits(v: i32) -> int {
    if v >= 0 {
        v as int
    } else {
        v + 4294967296
    }
}

impl EndianScalar for i32 {
    open spec fn width() -> nat {
        4
    }

    open spec fn le_bytes(self) -> Seq<u8> {
        le32_bytes(i32_bits(self))
    }

    open spec fn from_le(b: Seq<u8>) -> i32 {
        if le32(b) < 2147483648 {
            le32(b) as i32
        } else {
            (le32(b) - 4294967296) as i32
        }
    }

    proof fn lemma_read_written(self) {
        lemma_le32_of_bytes(i32_bits(self));
    }

    proof fn lemma_written_read(b: Seq<u8>) {
        lemma_le32_bytes_of(b);
    }

    fn size() -> (n: usize) {
        4
    }

    fn to_little_endian(self, bytes: &mut [u8]) {
        let bits: u32 = if self >= 0 {
            self as u32
        } else {
            (self + i32::MAX + 1) as u32 + 2147483648
        };
        bits.to_little_endian(bytes);
    }

    fn from_little_endian(bytes: &[u8]) -> (r: i32) {
        let bits: u32 = u32::from_little_endian(bytes);
        if bits < 2147483648 {
            bits as i32
        } else {
            (bits - 2147483648) as i32 - i32::MAX - 1
        }
    }
}

/// The unsigned number with the bits of `v`, in two's complement.
pub open spec fn i64_bits(v: i64) -> int {
    if v >= 0 {
        v as int
    } else {
        v + 18446744073709551616
    }
}

impl EndianScalar for i64 {
    open spec fn width() -> nat {
        8
    }

    open spec fn le_bytes(self) -> Seq<u8> {
        le64_bytes(i64_bits(self))
    }

    open spec fn from_le(b: Seq<u8>) -> i64 {
        if le64(b) < 9223372036854775808 {
            le64(b) as i64
        } else {
            (le64(b) - 18446744073709551616) as i64
        }
    }

    proof fn lemma_read_written(self) {
        lemma_le64_of_bytes(i64_bits(self));
    }

    proof fn lemma_written_read(b: Seq<u8>) {
        lemma_le64_bytes_of(b);
    }

    fn size() -> (n: usize) {
        8
    }

    fn to_little_endian(self, bytes: &mut [u8]) {
        let bits: u64 = if self >= 0 {
            self as u64
        } else {
            (self + i64::MAX + 1) as u64 + 9223372036854775808
        };
        bits.to_little_endian(bytes);
    }

    fn from_little_endian(bytes: &[u8]) -> (r: i64) {
        let bits: u64 = u64::from_little_endian(bytes);
        if bits < 9223372036854775808 {
            bits as i64
        } else {
            (bits - 9223372036854775808) as i64 - i64::MAX - 1
        }
    }
}

/// Reads the integer that the first bytes of `bytes` spell.
pub fn read_int<T: EndianScalar>(bytes: &[u8]) -> (r: T)
    requires
        bytes@.len() >= T::width(),
    ensures
        r == T::from_le(bytes@.subrange(0, T::width() as int)),
{
    T::from_little_endian(bytes)
}

/// Writes `value` over the first bytes of `bytes` and leaves the rest.
pub fn write_int<T: EndianScalar>(bytes: &mut [u8], value: T)
    requires
        old(bytes)@.len() >= T::width(),
    ensures
        final(bytes)@ == value.le_bytes() + old(bytes)@.skip(T::width() as int),
{
    value.to_little_endian(bytes)
}

/// Reads the count that the first four bytes spell.
pub fn read_len_type(bytes: &[u8]) -> (r: LenType)
    requires
        bytes@.len() >= 4,
    ensures
        r as int == le32(bytes@),
{
    let r: u32 = read_int(bytes);
    r
}

/// Writes `len` over the first four bytes and leaves the rest.
pub fn write_len_type(bytes: &mut [u8], len: LenType)
    requires
        old(bytes)@.len() >= 4,
    ensures
        final(bytes)@ == le32_bytes(len as int) + old(bytes)@.skip(4),
{
    write_int(bytes, len)
}

/// The bytes that spell `value`, in a vector of their own.
pub fn to_little_endian_array<T: EndianScalar>(value: T) -> (r: Vec<u8>)
    ensures
        r@ == value.le_bytes(),
{
    let n: usize = T::size();
    let mut temp: Vec<u8> = Vec::new();
    while temp.len() < n
        invariant
            temp@.len() <= n,
        decreases n - temp@.len(),
    {
        temp.push(0);
    }
    write_int(temp.as_mut_slice(), value);
    proof {
        value.lemma_read_written();
        assert(temp@ =~= value.le_bytes());
    }
    temp
}

/// Ten zero bytes: how a record spells "no key".
pub open spec fn no_key_bytes() -> Seq<u8> {
    Seq::new(10, |i: int| 0u8)
}

/// Whether `a` and `b` hold the same bytes.
pub fn bytes_eq(a: &[u8], b: &[u8]) -> (r: bool)
    ensures
        r == (a@ == b@),
{
    if a.len() != b.len() {
        return false;
    }
    let mut i: usize = 0;
    while i < a.len()
        invariant
            i <= a@.len(),
            a@.len() == b@.len(),
            forall|j: int| 0 <= j < i ==> a@[j] == b@[j],
        decreases a@.len() - i,
    {
        if a[i] != b[i] {
            return false;
        }
        i += 1;
    }
    assert(a@ =~= b@);
    true
}

/// The key that ten bytes of a record stand for: none where all are zero.
pub open spec fn key_option(raw: Seq<u8>) -> Option<Seq<u8>> {
    if raw == no_key_bytes() {
        None
    } else {
        Some(raw)
    }
}

/// The ten bytes that a record holds for a key or for none.
pub open spec fn key_raw(value: Option<&MetaKey>) -> Seq<u8> {
    match value {
        Some(k) => k@,
        None => no_key_bytes(),
    }
}

/// `b` with the bytes from `off` on replaced by `x`.
pub open spec fn splice(b: Seq<u8>, off: int, x: Seq<u8>) -> Seq<u8> {
    b.subrange(0, off) + x + b.skip(off + x.len())
}

/// Replacing a field of a record changes that field and no other.
pub proof fn lemma_splice(b: Seq<u8>, off: int, x: Seq<u8>, a: int, n: int)
    requires
        0 <= off,
        off + x.len() <= b.len(),
        0 <= a,
        0 <= n,
        a + n <= b.len(),
    ensures
        splice(b, off, x).len() == b.len(),
        a + n <= off || off + x.len() <= a ==> splice(b, off, x).subrange(a, a + n) == b.subrange(
            a,
            a + n,
        ),
        a == off && n == x.len() ==> splice(b, off, x).subrange(a, a + n) == x,
{
    if a + n <= off || off + x.len() <= a {
        assert(splice(b, off, x).subrange(a, a + n) =~= b.subrange(a, a + n));
    }
    if a == off && n == x.len() {
        assert(splice(b, off, x).subrange(a, a + n) =~= x);
    }
}

/// Writes `len` over the four bytes that start at `offset` and leaves
/// the rest.
pub fn write_len_type_at(bytes: &mut [u8], offset: usize, len: LenType)
    requires
        offset + 4 <= old(bytes)@.len(),
    ensures
        final(bytes)@ == splice(old(bytes)@, offset as int, le32_bytes(len as int)),
{
    let n: usize = bytes.len();
    let q1: u32 = len / 256;
    let q2: u32 = q1 / 256;
    let q3: u32 = q2 / 256;
    bytes[offset] = (len % 256) as u8;
    bytes[offset + 1] = (q1 % 256) as u8;
    bytes[offset + 2] = (q2 % 256) as u8;
    bytes[offset + 3] = (q3 % 256) as u8;
    assert(bytes@ =~= splice(old(bytes)@, offset as int, le32_bytes(len as int)));
}

/// Reads the count that the four bytes from `offset` on spell.
pub fn read_len_type_at(bytes: &[u8], offset: usize) -> (r: LenType)
    requires
        offset + 4 <= bytes@.len(),
    ensures
        r as int == le32(bytes@.subrange(offset as int, offset + 4)),
{
    let n: usize = bytes.len();
    read_len_type(slice_subrange(bytes, offset, offset + 4))
}

/// A key of the store that a list mints for one of its own records: the
/// hash of the list's key in eight bytes, then a sequence number in two.
/// All the keys of one list share the hash and differ in the number.
#[derive(Clone, Copy, Debug)]
pub struct MetaKey(pub [u8; 10]);

impl View for MetaKey {
    type V = Seq<u8>;

    /// The ten bytes, as the store sees the key.
    open spec fn view(&self) -> Seq<u8> {
        self.0@
    }
}

impl MetaKey {
    /// The hash part of the key.
    pub open spec fn spec_key(&self) -> u64 {
        le64(self@.subrange(0, 8)) as u64
    }

    /// The sequence number of the key.
    pub open spec fn spec_sep(&self) -> u16 {
        le16(self@.subrange(8, 10)) as u16
    }

    /// The key that has this hash and this sequence number.
    pub open spec fn spec_bytes(key: u64, sep: u16) -> Seq<u8> {
        le64_bytes(key as int) + le16_bytes(sep as int)
    }

    /// A key is spelled by its two parts, and no other way.
    pub proof fn lemma_parts(&self)
        ensures
            self@.len() == 10,
            self@ == Self::spec_bytes(self.spec_key(), self.spec_sep()),
    {
        lemma_le64_bytes_of(self@.subrange(0, 8));
        lemma_le16_bytes_of(self@.subrange(8, 10));
        assert(self@ =~= self@.subrange(0, 8) + self@.subrange(8, 10));
    }

    /// The parts of the key that two parts spell are those parts.
    pub proof fn lemma_parts_of(key: u64, sep: u16)
        ensures
            Self::spec_bytes(key, sep).len() == 10,
            le64(Self::spec_bytes(key, sep).subrange(0, 8)) == key,
            le16(Self::spec_bytes(key, sep).subrange(8, 10)) == sep,
    {
        lemma_le64_of_bytes(key as int);
        lemma_le16_of_bytes(sep as int);
        let b = Self::spec_bytes(key, sep);
        assert(b.subrange(0, 8) =~= le64_bytes(key as int));
        assert(b.subrange(8, 10) =~= le16_bytes(sep as int));
    }

    /// Reads the key that the first ten bytes hold, or `None` where they
    /// are all zero.
    pub fn read(bytes: &[u8]) -> (r: Option<MetaKey>)
        requires
            bytes@.len() >= 10,
        ensures
            match r {
                Some(k) => k@ == bytes@.subrange(0, 10) && k@ != no_key_bytes(),
                None => bytes@.subrange(0, 10) == no_key_bytes(),
            },
    {
        let mut key: [u8; 10] = [0; 10];
        let mut any: bool = false;
        let mut i: usize = 0;
        while i < 10
            invariant
                i <= 10,
                bytes@.len() >= 10,
                forall|j: int| 0 <= j < i ==> key@[j] == bytes@[j],
                any == exists|j: int| 0 <= j < i && bytes@[j] != 0,
            decreases 10 - i,
        {
            key[i] = bytes[i];
            if bytes[i] != 0 {
                any = true;
            }
            i += 1;
        }
        if any {
            let k = MetaKey(key);
            assert(k@ =~= bytes@.subrange(0, 10));
            let ghost j = choose|j: int| 0 <= j < 10 && bytes@[j] != 0;
            assert(k@[j] != no_key_bytes()[j]);
            Some(k)
        } else {
            assert(bytes@.subrange(0, 10) =~= no_key_bytes());
            None
        }
    }

    /// Reads the key that the ten bytes from `offset` on hold, or `None`
    /// where they are all zero.
    pub fn read_at(bytes: &[u8], offset: usize) -> (r: Option<MetaKey>)
        requires
            offset + 10 <= bytes@.len(),
        ensures
            match r {
                Some(k) => key_option(bytes@.subrange(offset as int, offset + 10)) == Some(k@),
                None => key_option(bytes@.subrange(offset as int, offset + 10)) is None,
            },
    {
        let n: usize = bytes.len();
        let part = slice_subrange(bytes, offset, offset + 10);
        assert(part@.subrange(0, 10) =~= part@);
        Self::read(part)
    }

    /// Writes the key over the ten bytes that start at `offset`, or ten
    /// zero bytes for `None`, and leaves the rest.
    pub fn write_at(bytes: &mut [u8], offset: usize, value: &Option<&MetaKey>)
        requires
            offset + 10 <= old(bytes)@.len(),
        ensures
            final(bytes)@ == splice(old(bytes)@, offset as int, key_raw(*value)),
    {
        let ghost src = match value {
            Some(k) => k@,
            None => no_key_bytes(),
        };
        let n: usize = bytes.len();
        let mut i: usize = 0;
        while i < 10
            invariant
                i <= 10,
                offset + 10 <= n,
                n == bytes@.len(),
                bytes@.len() == old(bytes)@.len(),
                src.len() == 10,
                src == (match value {
                    Some(k) => k@,
                    None => no_key_bytes(),
                }),
                forall|j: int| 0 <= j < offset ==> bytes@[j] == old(bytes)@[j],
                forall|j: int| offset + 10 <= j < bytes@.len() ==> bytes@[j] == old(bytes)@[j],
                forall|j: int| 0 <= j < i ==> bytes@[offset + j] == src[j],
            decreases 10 - i,
        {
            let b: u8 = match value {
                Some(k) => k.0[i],
                None => 0,
            };
            bytes[offset + i] = b;
            i += 1;
        }
        assert(bytes@ =~= old(bytes)@.subrange(0, offset as int) + src + old(bytes)@.skip(
            offset + 10,
        ));
    }

    /// Writes the key over the first ten bytes, or ten zero bytes for
    /// `None`, and leaves the rest.
    pub fn write(bytes: &mut [u8], value: &Option<&MetaKey>)
        requires
            old(bytes)@.len() >= 10,
        ensures
            final(bytes)@ == (match value {
                Some(k) => k@,
                None => no_key_bytes(),
            }) + old(bytes)@.skip(10),
    {
        Self::write_at(bytes, 0, value);
        assert(old(bytes)@.subrange(0, 0) =~= Seq::<u8>::empty());
        assert(bytes@ =~= (match value {
            Some(k) => k@,
            None => no_key_bytes(),
        }) + old(bytes)@.skip(10));
    }

    /// The key of ten zero bytes: hash 0, sequence number 0.
    pub fn new() -> (r: Self)
        ensures
            r@ == no_key_bytes(),
            r.spec_key() == 0,
            r.spec_sep() == 0,
    {
        let r = MetaKey([0; 10]);
        assert(r@ =~= no_key_bytes());
        r
    }

    /// The next key of the same list: the same hash, the sequence number
    /// one higher.
    pub fn new_add(&self) -> (r: Self)
        requires
            self.spec_sep() < u16::MAX,
        ensures
            r.spec_key() == self.spec_key(),
            r.spec_sep() == self.spec_sep() + 1,
    {
        let mut n = MetaKey(self.0);
        n.add_sep(1);
        n
    }

    /// The hash part.
    pub fn key(&self) -> (r: u64)
        ensures
            r == self.spec_key(),
    {
        read_int(array_as_slice(&self.0))
    }

    /// Replaces the hash part and keeps the sequence number.
    pub fn set_key(&mut self, key: u64)
        ensures
            final(self).spec_key() == key,
            final(self).spec_sep() == old(self).spec_sep(),
            final(self)@ == Self::spec_bytes(key, old(self).spec_sep()),
    {
        proof {
            old(self).lemma_parts();
            Self::lemma_parts_of(key, old(self).spec_sep());
        }
        write_int(&mut self.0, key);
        assert(self@ =~= Self::spec_bytes(key, old(self).spec_sep()));
    }

    /// The sequence number.
    pub fn sep(&self) -> (r: u16)
        ensures
            r == self.spec_sep(),
    {
        let s = slice_subrange(array_as_slice(&self.0), 8, 10);
        assert(s@.subrange(0, 2) =~= s@);
        read_int(s)
    }

    /// Raises the sequence number by `diff` and keeps the hash.
    pub fn add_sep(&mut self, diff: u16)
        requires
            old(self).spec_sep() + diff <= u16::MAX,
        ensures
            final(self).spec_key() == old(self).spec_key(),
            final(self).spec_sep() == old(self).spec_sep() + diff,
            final(self)@ == Self::spec_bytes(
                old(self).spec_key(),
                (old(self).spec_sep() + diff) as u16,
            ),
    {
        let s: u16 = self.sep();
        self.set_sep(s + diff);
    }

    /// Replaces the sequence number and keeps the hash.
    pub fn set_sep(&mut self, sep: u16)
        ensures
            final(self).spec_key() == old(self).spec_key(),
            final(self).spec_sep() == sep,
            final(self)@ == Self::spec_bytes(old(self).spec_key(), sep),
    {
        proof {
            old(self).lemma_parts();
            Self::lemma_parts_of(old(self).spec_key(), sep);
        }
        self.0[8] = (sep % 256) as u8;
        self.0[9] = (sep / 256) as u8;
        assert(self@ =~= Self::spec_bytes(old(self).spec_key(), sep));
    }

    /// The ten bytes of the key, as the store takes them.
    pub fn as_ref(&self) -> (r: &[u8])
        ensures
            r@ == self@,
    {
        array_as_slice(&self.0)
    }
}

} // verus!
