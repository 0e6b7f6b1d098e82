//! The reader over a byte buffer and the values that can be decoded from it.
use vstd::prelude::*;

use crate::error::Error;
use crate::le::{le_i64, le_signed_value, le_u64, le_value, lemma_le_value_bound, pow256};

verus! {

/// A cursor over a borrowed byte buffer from which values implementing
/// `Decode` are read.
pub struct Reader<'a> {
    data: &'a [u8],
    offset: usize,
}

impl<'a> Reader<'a> {
    #[verifier::type_invariant]
    spec fn in_bounds(self) -> bool {
        self.offset <= self.data@.len()
    }

    /// The bytes being read.
    pub closed spec fn buffer(&self) -> Seq<u8> {
        self.data@
    }

    /// Where the next read starts.
    pub closed spec fn cursor(&self) -> nat {
        self.offset as nat
    }

    /// How many bytes are left after the cursor.
    pub open spec fn remaining(&self) -> int {
        self.buffer().len() - self.cursor()
    }

    /// Constructs a new `Reader` positioned at the start of `data`.
    pub fn new(data: &'a [u8]) -> (r: Reader<'a>)
        ensures
            r.buffer() == data@,
            r.cursor() == 0,
    {
        Reader { data, offset: 0 }
    }

    /// The current offset of the cursor.
    pub fn offset(&self) -> (r: usize)
        ensures
            r == self.cursor(),
            r <= self.buffer().len(),
    {
        proof {
            use_type_invariant(self);
        }
        self.offset
    }

    /// Copies the next `buffer.len()` bytes into `buffer` and advances past
    /// them. Fails, touching nothing, when fewer bytes remain.
    pub fn read_bytes(&mut self, buffer: &mut [u8]) -> (r: Result<(), Error>)
        ensures
            final(self).buffer() == old(self).buffer(),
            final(buffer)@.len() == old(buffer)@.len(),
            if old(buffer)@.len() <= old(self).remaining() {
                &&& r is Ok
                &&& final(buffer)@ == old(self).buffer().subrange(
                    old(self).cursor() as int,
                    (old(self).cursor() + old(buffer)@.len()) as int,
                )
                &&& final(self).cursor() == old(self).cursor() + old(buffer)@.len()
            } else {
                &&& r == Err::<(), Error>(Error::Overflow)
                &&& final(buffer)@ == old(buffer)@
                &&& final(self).cursor() == old(self).cursor()
            },
    {
        proof {
            use_type_invariant(&*self);
        }
        if self.data.len() - self.offset < buffer.len() {
            return Err(Error::Overflow);
        }
        let data = self.data;
        let start = self.offset;
        let n = buffer.len();
        let mut i: usize = 0;
        while i < n
            invariant
                start + n <= data.len(),
                i <= n,
                buffer@.len() == n,
                forall|j: int| 0 <= j < i ==> buffer@[j] == data@[start + j],
            decreases n - i,
        {
            buffer[i] = data[start + i];
            i = i + 1;
        }
        self.offset = start + n;
        assert(buffer@ =~= self.data@.subrange(start as int, start + n));
        Ok(())
    }

    /// Decodes a `T` at the cursor and advances past what it consumed.
    pub fn read<T: Decode>(&mut self) -> (r: Result<T, Error>)
        ensures
            decode_outcome(*old(self), *final(self), r),
    {
        T::decode(self)
    }

    /// Decodes a `T` starting at the absolute `offset`, leaving this reader's
    /// cursor where it is. An offset at or past the end of the buffer fails,
    /// whatever the width of `T`.
    pub fn read_at<T: Decode>(&self, offset: usize) -> (r: Result<T, Error>)
        ensures
            read_at_outcome(self.buffer(), offset as nat, r),
    {
        if offset >= self.data.len() {
            return Err(Error::Overflow);
        }
        let mut at = Reader { data: self.data, offset };
        at.read()
    }
}

/// What a decode of a `T` from `bytes`, starting at `start`, gives: the value
/// that the next `T::width()` bytes hold when there are that many, and
/// `Overflow` when there are not.
pub open spec fn result_at<T: Decode>(bytes: Seq<u8>, start: nat, r: Result<T, Error>) -> bool {
    if start + T::width() <= bytes.len() {
        match r {
            Ok(v) => T::decodes(bytes.subrange(start as int, (start + T::width()) as int), v),
            Err(_) => false,
        }
    } else {
        r == Err::<T, Error>(Error::Overflow)
    }
}

/// A decode of a `T` by a reader that was `before` and is `after`: the
/// result is `result_at` the cursor, the buffer stays, and the cursor moves
/// past the value on success, or by `T::consumed_on_failure` on failure.
pub open spec fn decode_outcome<T: Decode>(before: Reader, after: Reader, r: Result<T, Error>) -> bool {
    &&& result_at(before.buffer(), before.cursor(), r)
    &&& after.buffer() == before.buffer()
    &&& after.cursor() == if r is Ok {
        before.cursor() + T::width()
    } else {
        before.cursor() + T::consumed_on_failure(before.remaining() as nat)
    }
}

/// A decode of a `T` at the absolute `offset` of `bytes`: `Overflow` when the
/// offset is at or past the end, else `result_at` the offset.
pub open spec fn read_at_outcome<T: Decode>(bytes: Seq<u8>, offset: nat, r: Result<T, Error>) -> bool {
    if offset >= bytes.len() {
        r == Err::<T, Error>(Error::Overflow)
    } else {
        result_at(bytes, offset, r)
    }
}

/// A value of fixed binary width that can be read from a `Reader`.
pub trait Decode: Sized {
    /// The number of bytes one value takes.
    spec fn width() -> nat;

    /// Whether `bytes`, of length `width()`, hold `v`.
    spec fn decodes(bytes: Seq<u8>, v: Self) -> bool;

    /// How far a failed decode moves the cursor when only `available` bytes,
    /// fewer than `width()`, remain.
    spec fn consumed_on_failure(available: nat) -> nat;

    /// Reads one value at the reader's cursor.
    fn decode(reader: &mut Reader) -> (r: Result<Self, Error>)
        ensures
            final(reader).buffer() == old(reader).buffer(),
            if old(reader).cursor() + Self::width() <= old(reader).buffer().len() {
                &&& r matches Ok(v) && Self::decodes(
                    old(reader).buffer().subrange(
                        old(reader).cursor() as int,
                        (old(reader).cursor() + Self::width()) as int,
                    ),
                    v,
                )
                &&& final(reader).cursor() == old(reader).cursor() + Self::width()
            } else {
                &&& r == Err::<Self, Error>(Error::Overflow)
                &&& final(reader).cursor() == old(reader).cursor() + Self::consumed_on_failure(
                    old(reader).remaining() as nat,
                )
            },
    ;

    /// Reads one value from the start of `data` through a reader of its own.
    fn decode_in_place(data: &[u8]) -> (r: Result<Self, Error>)
        ensures
            if Self::width() <= data@.len() {
                r matches Ok(v) && Self::decodes(data@.subrange(0, Self::width() as int), v)
            } else {
                r == Err::<Self, Error>(Error::Overflow)
            },
    {
        let mut reader = Reader::new(data);
        Self::decode(&mut reader)
    }
}

impl Decode for u8 {
    open spec fn width() -> nat {
        1
    }

    open spec fn decodes(bytes: Seq<u8>, v: u8) -> bool {
        v as int == le_value(bytes)
    }

    open spec fn consumed_on_failure(available: nat) -> nat {
        0
    }

    fn decode(reader: &mut Reader) -> (r: Result<u8, Error>) {
        let mut bytes = [0u8; 1];
        match reader.read_bytes(&mut bytes) {
            Ok(()) => {
                proof {
                    lemma_le_value_bound(bytes@);
                    reveal_with_fuel(pow256, 2);
                }
                Ok(le_u64(&bytes) as u8)
            },
            Err(e) => {
                assert(Self::consumed_on_failure(old(reader).remaining() as nat) == 0);
                Err(e)
            },
        }
    }
}

impl Decode for i8 {
    open spec fn width() -> nat {
        1
    }

    open spec fn decodes(bytes: Seq<u8>, v: i8) -> bool {
        v as int == le_signed_value(bytes)
    }

    open spec fn consumed_on_failure(available: nat) -> nat {
        0
    }

    fn decode(reader: &mut Reader) -> (r: Result<i8, Error>) {
        let mut bytes = [0u8; 1];
        match reader.read_bytes(&mut bytes) {
            Ok(()) => {
                proof {
                    reveal_with_fuel(pow256, 2);
                }
                Ok(le_i64(&bytes) as i8)
            },
            Err(e) => {
                assert(Self::consumed_on_failure(old(reader).remaining() as nat) == 0);
                Err(e)
            },
        }
    }
}

impl Decode for u16 {
    open spec fn width() -> nat {
        2
    }

    open spec fn decodes(bytes: Seq<u8>, v: u16) -> bool {
        v as int == le_value(bytes)
    }

    open spec fn consumed_on_failure(available: nat) -> nat {
        0
    }

    fn decode(reader: &mut Reader) -> (r: Result<u16, Error>) {
        let mut bytes = [0u8; 2];
        match reader.read_bytes(&mut bytes) {
            Ok(()) => {
                proof {
                    lemma_le_value_bound(bytes@);
                    reveal_with_fuel(pow256, 3);
                }
                Ok(le_u64(&bytes) as u16)
            },
            Err(e) => {
                assert(Self::consumed_on_failure(old(reader).remaining() as nat) == 0);
                Err(e)
            },
        }
    }
}

impl Decode for i16 {
    open spec fn width() -> nat {
        2
    }

    open spec fn decodes(bytes: Seq<u8>, v: i16) -> bool {
        v as int == le_signed_value(bytes)
    }

    open spec fn consumed_on_failure(available: nat) -> nat {
        0
    }

    fn decode(reader: &mut Reader) -> (r: Result<i16, Error>) {
        let mut bytes = [0u8; 2];
        match reader.read_bytes(&mut bytes) {
            Ok(()) => {
                proof {
                    reveal_with_fuel(pow256, 3);
                }
                Ok(le_i64(&bytes) as i16)
            },
            Err(e) => {
                assert(Self::consumed_on_failure(old(reader).remaining() as nat) == 0);
                Err(e)
            },
        }
    }
}

impl Decode for u32 {
    open spec fn width() -> nat {
        4
    }

    open spec fn decodes(bytes: Seq<u8>, v: u32) -> bool {
        v as int == le_value(bytes)
    }

    open spec fn consumed_on_failure(available: nat) -> nat {
        0
    }

    fn decode(reader: &mut Reader) -> (r: Result<u32, Error>) {
        let mut bytes = [0u8; 4];
        match reader.read_bytes(&mut bytes) {
            Ok(()) => {
                proof {
                    lemma_le_value_bound(bytes@);
                    reveal_with_fuel(pow256, 5);
                }
                Ok(le_u64(&bytes) as u32)
            },
            Err(e) => {
                assert(Self::consumed_on_failure(old(reader).remaining() as nat) == 0);
                Err(e)
            },
        }
    }
}

impl Decode for i32 {
    open spec fn width() -> nat {
        4
    }

    open spec fn decodes(bytes: Seq<u8>, v: i32) -> bool {
        v as int == le_signed_value(bytes)
    }

    open spec fn consumed_on_failure(available: nat) -> nat {
        0
    }

    fn decode(reader: &mut Reader) -> (r: Result<i32, Error>) {
        let mut bytes = [0u8; 4];
        match reader.read_bytes(&mut bytes) {
            Ok(()) => {
                proof {
                    reveal_with_fuel(pow256, 5);
                }
                Ok(le_i64(&bytes) as i32)
            },
            Err(e) => {
                assert(Self::consumed_on_failure(old(reader).remaining() as nat) == 0);
                Err(e)
            },
        }
    }
}

impl Decode for u64 {
    open spec fn width() -> nat {
        8
    }

    open spec fn decodes(bytes: Seq<u8>, v: u64) -> bool {
        v as int == le_value(bytes)
    }

    open spec fn consumed_on_failure(available: nat) -> nat {
        0
    }

    fn decode(reader: &mut Reader) -> (r: Result<u64, Error>) {
        let mut bytes = [0u8; 8];
        match reader.read_bytes(&mut bytes) {
            Ok(()) => {
                proof {
                    lemma_le_value_bound(bytes@);
                    reveal_with_fuel(pow256, 9);
                }
                Ok(le_u64(&bytes) as u64)
            },
            Err(e) => {
                assert(Self::consumed_on_failure(old(reader).remaining() as nat) == 0);
                Err(e)
            },
        }
    }
}

impl Decode for i64 {
    open spec fn width() -> nat {
        8
    }

    open spec fn decodes(bytes: Seq<u8>, v: i64) -> bool {
        v as int == le_signed_value(bytes)
    }

    open spec fn consumed_on_failure(available: nat) -> nat {
        0
    }

    fn decode(reader: &mut Reader) -> (r: Result<i64, Error>) {
        let mut bytes = [0u8; 8];
        match reader.read_bytes(&mut bytes) {
            Ok(()) => {
                proof {
                    reveal_with_fuel(pow256, 9);
                }
                Ok(le_i64(&bytes) as i64)
            },
            Err(e) => {
                assert(Self::consumed_on_failure(old(reader).remaining() as nat) == 0);
                Err(e)
            },
        }
    }
}

/// The bytes `i * w .. i * w + w` of `bytes`: where element `i` of an array
/// of `w`-byte values lies.
pub open spec fn slot(bytes: Seq<u8>, i: int, w: nat) -> Seq<u8> {
    bytes.subrange(i * w, i * w + w)
}

/// An array is its elements one after another, in index order, with nothing
/// between them.
impl<T: Decode + Copy + Default, const N: usize> Decode for [T; N] {
    open spec fn width() -> nat {
        N as nat * T::width()
    }

    open spec fn decodes(bytes: Seq<u8>, v: [T; N]) -> bool {
        forall|i: int| 0 <= i < N ==> T::decodes(#[trigger] slot(bytes, i, T::width()), v@[i])
    }

    /// The elements that fit are read whole; the next one fails after
    /// consuming what it consumes on failure.
    open spec fn consumed_on_failure(available: nat) -> nat {
        if T::width() == 0 {
            0
        } else {
            (available / T::width()) * T::width() + T::consumed_on_failure(
                available % T::width(),
            )
        }
    }

    fn decode(reader: &mut Reader) -> (r: Result<[T; N], Error>) {
        proof {
            use_type_invariant(&*reader);
        }
        let ghost bytes = reader.buffer();
        let ghost start = reader.cursor();
        let ghost w = T::width();
        let mut data: [T; N] = [T::default(); N];
        let mut i: usize = 0;
        while i < N
            invariant
                i <= N,
                w == T::width(),
                bytes == old(reader).buffer(),
                start == old(reader).cursor(),
                reader.buffer() == bytes,
                start + i * w <= bytes.len(),
                reader.cursor() == start + i * w,
                forall|j: int|
                    0 <= j < i ==> T::decodes(
                        bytes.subrange(start + j * w, start + j * w + w),
                        #[trigger] data@[j],
                    ),
            decreases N - i,
        {
            let res = reader.read::<T>();
            match res {
                Ok(v) => {
                    data[i] = v;
                    proof {
                        assert(start + i * w + w == start + (i + 1) * w) by (nonlinear_arith);
                    }
                    i = i + 1;
                },
                Err(e) => {
                    proof {
                        let avail = bytes.len() - start;
                        let rest = avail - i * w;
                        assert(start + i * w + w > bytes.len());
                        vstd::arithmetic::div_mod::lemma_fundamental_div_mod_converse(
                            avail,
                            w as int,
                            i as int,
                            rest,
                        );
                        assert(avail < N * w) by (nonlinear_arith)
                            requires
                                avail == i * w + rest,
                                rest < w,
                                i + 1 <= N,
                        ;
                        assert(Self::consumed_on_failure(avail as nat) == i * w
                            + T::consumed_on_failure(rest as nat));
                    }
                    return Err(e);
                },
            }
        }
        proof {
            let whole = bytes.subrange(start as int, start + N * w);
            assert forall|j: int| 0 <= j < N implies T::decodes(
                #[trigger] slot(whole, j, w),
                data@[j],
            ) by {
                assert(j * w + w <= N * w) by (nonlinear_arith)
                    requires
                        j + 1 <= N,
                ;
                assert(slot(whole, j, w) =~= bytes.subrange(start + j * w, start + j * w + w));
            }
        }
        Ok(data)
    }
}

/// On a reader over an empty buffer, a decode of any type that takes at
/// least one byte fails with `Overflow`.
pub proof fn lemma_empty_buffer_fails<T: Decode>(before: Reader, after: Reader, r: Result<T, Error>)
    requires
        before.buffer().len() == 0,
        T::width() > 0,
        decode_outcome(before, after, r),
    ensures
        r == Err::<T, Error>(Error::Overflow),
{
}

/// An array decoded from exactly as many bytes as it takes succeeds, holds
/// in each slot the value that slot's bytes decode to, and leaves no byte
/// behind.
pub proof fn lemma_array_exact<T: Decode + Copy + Default, const N: usize>(
    before: Reader,
    after: Reader,
    r: Result<[T; N], Error>,
)
    requires
        before.remaining() == N * T::width(),
        decode_outcome(before, after, r),
    ensures
        r matches Ok(v) && forall|i: int|
            0 <= i < N ==> T::decodes(
                #[trigger] slot(
                    before.buffer().subrange(before.cursor() as int, before.buffer().len() as int),
                    i,
                    T::width(),
                ),
                v@[i],
            ),
        after.remaining() == 0,
{
}

/// An array of `N` values of a type at least one byte wide, decoded from one
/// byte fewer than it takes, fails with `Overflow` on its last element: the
/// reader has consumed the first `N - 1` elements whole, and then what the
/// last one consumes on failure (nothing, for the integer types).
pub proof fn lemma_array_one_byte_short<T: Decode + Copy + Default, const N: usize>(
    before: Reader,
    after: Reader,
    r: Result<[T; N], Error>,
)
    requires
        N >= 1,
        T::width() >= 1,
        before.remaining() == N * T::width() - 1,
        decode_outcome(before, after, r),
    ensures
        r == Err::<[T; N], Error>(Error::Overflow),
        after.cursor() == before.cursor() + (N - 1) * T::width() + T::consumed_on_failure(
            (T::width() - 1) as nat,
        ),
{
    let w = T::width() as int;
    let avail = N * w - 1;
    assert(avail == (N - 1) * w + (w - 1)) by (nonlinear_arith)
        requires
            avail == N * w - 1,
    ;
    vstd::arithmetic::div_mod::lemma_fundamental_div_mod_converse(avail, w, N - 1, w - 1);
}

/// A read at the end of the buffer fails whatever the type, and a read at
/// the last byte fails for any type wider than one byte.
pub proof fn lemma_read_at_near_end<T: Decode>(bytes: Seq<u8>, offset: nat, r: Result<T, Error>)
    requires
        offset == bytes.len() || (offset + 1 == bytes.len() && T::width() >= 2),
        read_at_outcome(bytes, offset, r),
    ensures
        r == Err::<T, Error>(Error::Overflow),
{
}

} // verus!
