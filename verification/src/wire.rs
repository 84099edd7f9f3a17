//! The bytes of a snapshot: a fixed schema written in CBOR, with every
//! length definite and every number in its shortest form.

use vstd::prelude::*;
use vstd::slice::{slice_subrange, slice_to_vec};
use vstd::utf8::{
    decode_utf8, decode_utf8_encode_utf8, encode_utf8, encode_utf8_decode_utf8,
    encode_utf8_valid_utf8, valid_utf8,
};

verus! {

/// The number that bytes stand for, most significant byte first.
pub open spec fn be_value(bytes: Seq<u8>) -> nat
    decreases bytes.len(),
{
    if bytes.len() == 0 {
        0
    } else {
        be_value(bytes.drop_last()) * 256 + bytes.last() as nat
    }
}

/// The `width` bytes that stand for `n`, most significant byte first.
pub open spec fn be_bytes(n: nat, width: nat) -> Seq<u8>
    decreases width,
{
    if width == 0 {
        Seq::empty()
    } else {
        be_bytes(n / 256, (width - 1) as nat).push((n % 256) as u8)
    }
}

/// The numbers that `width` bytes can stand for are those below this one.
pub open spec fn be_limit(width: nat) -> nat
    decreases width,
{
    if width == 0 {
        1
    } else {
        256 * be_limit((width - 1) as nat)
    }
}

/// Bytes written for a number stand for that number.
pub proof fn lemma_be_value_of_bytes(n: nat, width: nat)
    requires
        n < be_limit(width),
    ensures
        be_bytes(n, width).len() == width,
        be_value(be_bytes(n, width)) == n,
    decreases width,
{
    if width > 0 {
        lemma_be_value_of_bytes(n / 256, (width - 1) as nat);
        assert(be_bytes(n, width).drop_last() =~= be_bytes(n / 256, (width - 1) as nat));
    }
}

/// A number read from bytes is written as those bytes.
pub proof fn lemma_be_bytes_of_value(bytes: Seq<u8>)
    ensures
        be_value(bytes) < be_limit(bytes.len()),
        be_bytes(be_value(bytes), bytes.len()) == bytes,
    decreases bytes.len(),
{
    if bytes.len() > 0 {
        lemma_be_bytes_of_value(bytes.drop_last());
        let n = be_value(bytes);
        assert(n / 256 == be_value(bytes.drop_last()));
        assert(n % 256 == bytes.last() as nat);
        assert(be_bytes(n, bytes.len()) =~= bytes);
    }
}

/// What 1, 2, 4, 8 and 16 bytes can hold.
pub proof fn lemma_be_limits()
    ensures
        be_limit(1) == 0x100,
        be_limit(2) == 0x1_0000,
        be_limit(4) == 0x1_0000_0000,
        be_limit(8) == 0x1_0000_0000_0000_0000,
        be_limit(16) == 0x1_0000_0000_0000_0000_0000_0000_0000_0000,
{
    reveal_with_fuel(be_limit, 17);
}

/// Appends the `width` big-endian bytes of `n`.
pub fn write_be(n: u128, width: usize, out: &mut Vec<u8>)
    requires
        width <= 16,
    ensures
        final(out)@ == old(out)@ + be_bytes(n as nat, width as nat),
{
    let ghost start = out@;
    let mut digits: Vec<u8> = Vec::new();
    let mut rest: u128 = n;
    let mut i: usize = 0;
    while i < width
        invariant
            i <= width,
            digits@.len() == i,
            forall|k: nat|
                #![trigger be_bytes(rest as nat, k)]
                be_bytes(n as nat, i as nat + k) == be_bytes(rest as nat, k) + digits@.reverse(),
        decreases width - i,
    {
        let ghost before = digits@;
        let ghost rest_before = rest;
        digits.push((rest % 256) as u8);
        rest = rest / 256;
        proof {
            assert forall|k: nat| #![trigger be_bytes(rest as nat, k)]
                be_bytes(n as nat, (i + 1) as nat + k) == be_bytes(rest as nat, k)
                    + digits@.reverse() by {
                assert(be_bytes(n as nat, i as nat + (k + 1)) == be_bytes(
                    rest_before as nat,
                    k + 1,
                ) + before.reverse());
                assert(be_bytes(rest_before as nat, k + 1) == be_bytes(rest as nat, k).push(
                    (rest_before % 256) as u8,
                ));
                assert(digits@.reverse() =~= seq![(rest_before % 256) as u8] + before.reverse());
                assert(be_bytes(rest as nat, k).push((rest_before % 256) as u8) + before.reverse()
                    =~= be_bytes(rest as nat, k) + digits@.reverse());
            }
        }
        i += 1;
    }
    proof {
        assert(be_bytes(n as nat, width as nat + 0) == be_bytes(rest as nat, 0) + digits@.reverse());
        assert(be_bytes(rest as nat, 0) + digits@.reverse() =~= digits@.reverse());
    }
    let mut j: usize = width;
    while j > 0
        invariant
            j <= width,
            digits@.len() == width,
            out@ == start + digits@.reverse().take(width - j),
        decreases j,
    {
        j -= 1;
        out.push(digits[j]);
        proof {
            let r = digits@.reverse();
            assert(r.take(width - j) =~= r.take(width - j - 1).push(r[width - j - 1]));
            assert(r[width - j - 1] == digits@[j as int]);
            assert(out@ =~= start + r.take(width - j));
        }
    }
    proof {
        assert(digits@.reverse().take(width as int) =~= digits@.reverse());
    }
}

/// Reads the number that `width` big-endian bytes at `pos` stand for.
pub fn read_be(bytes: &[u8], pos: usize, width: usize) -> (r: u128)
    requires
        width <= 16,
        pos + width <= bytes.len(),
    ensures
        r == be_value(bytes@.subrange(pos as int, pos + width)),
{
    let mut value: u128 = 0;
    let mut i: usize = 0;
    proof {
        assert(bytes@.subrange(pos as int, pos as int).len() == 0);
    }
    while i < width
        invariant
            i <= width <= 16,
            pos + width <= bytes.len(),
            value == be_value(bytes@.subrange(pos as int, pos + i)),
        decreases width - i,
    {
        proof {
            let part = bytes@.subrange(pos as int, pos + i + 1);
            assert(part.drop_last() =~= bytes@.subrange(pos as int, pos + i));
            assert(part.last() == bytes@[pos + i]);
            lemma_be_bytes_of_value(part.drop_last());
            lemma_be_limits();
            lemma_be_limit_grows(i as nat, 15);
            assert(be_limit(16) == 256 * be_limit(15));
        }
        value = value * 256 + bytes[pos + i] as u128;
        i += 1;
    }
    value
}

/// More bytes hold more.
pub proof fn lemma_be_limit_grows(a: nat, b: nat)
    requires
        a <= b,
    ensures
        be_limit(a) <= be_limit(b),
    decreases b,
{
    if a < b {
        lemma_be_limit_grows(a, (b - 1) as nat);
    }
}

/// Major type of an unsigned number.
pub const MAJOR_UINT: u8 = 0;

/// Major type of a byte string.
pub const MAJOR_BYTES: u8 = 2;

/// Major type of a text.
pub const MAJOR_TEXT: u8 = 3;

/// Major type of an array.
pub const MAJOR_ARRAY: u8 = 4;

/// Major type of a map.
pub const MAJOR_MAP: u8 = 5;

/// How many bytes follow the first byte of the head of the number `n`.
pub open spec fn head_width(n: nat) -> nat {
    if n < 24 {
        0
    } else if n < 0x100 {
        1
    } else if n < 0x1_0000 {
        2
    } else if n < 0x1_0000_0000 {
        4
    } else {
        8
    }
}

/// The low five bits of the first byte of the head of the number `n`.
pub open spec fn head_minor(n: nat) -> nat {
    if n < 24 {
        n
    } else if n < 0x100 {
        24
    } else if n < 0x1_0000 {
        25
    } else if n < 0x1_0000_0000 {
        26
    } else {
        27
    }
}

/// The head of a data item: its major type and its number, which is the
/// value of an unsigned number and the length of anything else, in the
/// shortest form.
pub open spec fn head(major: u8, n: nat) -> Seq<u8> {
    seq![(major * 32 + head_minor(n)) as u8] + be_bytes(n, head_width(n))
}

/// The head that `bytes` start with: its major type, its number and its
/// length. `None` where they start with no head in the shortest form.
pub open spec fn unhead(bytes: Seq<u8>) -> Option<(u8, nat, nat)> {
    if bytes.len() == 0 {
        None
    } else {
        let major = bytes[0] / 32;
        let minor = (bytes[0] % 32) as nat;
        if minor < 24 {
            Some((major, minor, 1nat))
        } else if minor > 27 {
            None
        } else {
            let width: nat = if minor == 24 {
                1
            } else if minor == 25 {
                2
            } else if minor == 26 {
                4
            } else {
                8
            };
            if bytes.len() < 1 + width {
                None
            } else {
                let n = be_value(bytes.subrange(1, 1 + width as int));
                if head_width(n) != width {
                    None
                } else {
                    Some((major, n, 1 + width))
                }
            }
        }
    }
}

/// A head that was written is read again, whatever follows it.
pub proof fn lemma_unhead_head(major: u8, n: nat, rest: Seq<u8>)
    requires
        major < 8,
        n <= u64::MAX,
    ensures
        head(major, n).len() == 1 + head_width(n),
        unhead(head(major, n) + rest) == Some((major, n, head(major, n).len())),
{
    lemma_be_limits();
    let w = head_width(n);
    if w > 0 {
        lemma_be_value_of_bytes(n, w);
    }
    let bytes = head(major, n) + rest;
    let first = (major * 32 + head_minor(n)) as u8;
    assert(bytes[0] == first);
    assert(first / 32 == major);
    assert(first % 32 == head_minor(n));
    if w > 0 {
        assert(bytes.subrange(1, 1 + w as int) =~= be_bytes(n, w));
    }
}

/// A head that was read is the one that is written for its major type and
/// number.
pub proof fn lemma_head_unhead(bytes: Seq<u8>)
    requires
        unhead(bytes) is Some,
    ensures
        ({
            let (major, n, k) = unhead(bytes)->0;
            &&& major < 8
            &&& n <= u64::MAX
            &&& 1 <= k <= bytes.len()
            &&& bytes.take(k as int) == head(major, n)
        }),
{
    lemma_be_limits();
    let (major, n, k) = unhead(bytes)->0;
    let minor = (bytes[0] % 32) as nat;
    if minor < 24 {
        assert(bytes.take(1) =~= head(major, n));
    } else {
        let w = (k - 1) as nat;
        let digits = bytes.subrange(1, 1 + w as int);
        lemma_be_bytes_of_value(digits);
        assert(bytes.take(k as int) =~= seq![bytes[0]] + digits);
        assert(bytes[0] == (major * 32 + head_minor(n)) as u8);
    }
}

/// Appends the head of a data item.
pub fn write_head(major: u8, n: u64, out: &mut Vec<u8>)
    requires
        major < 8,
    ensures
        final(out)@ == old(out)@ + head(major, n as nat),
{
    let ghost start = out@;
    let base: u8 = major * 32;
    if n < 24 {
        out.push(base + n as u8);
        proof {
            reveal_with_fuel(be_bytes, 1);
            assert(out@ =~= start + head(major, n as nat));
        }
    } else {
        let (minor, width): (u8, usize) = if n < 0x100 {
            (24, 1)
        } else if n < 0x1_0000 {
            (25, 2)
        } else if n < 0x1_0000_0000 {
            (26, 4)
        } else {
            (27, 8)
        };
        out.push(base + minor);
        write_be(n as u128, width, out);
        proof {
            assert(out@ =~= start + head(major, n as nat));
        }
    }
}

/// Reads the head that starts at `pos`: its major type, its number and
/// where it ends.
pub fn read_head(bytes: &[u8], pos: usize) -> (r: Option<(u8, u64, usize)>)
    requires
        pos <= bytes.len(),
    ensures
        r matches Some((major, n, end)) ==> pos < end <= bytes.len() && unhead(
            bytes@.skip(pos as int),
        ) == Some((major, n as nat, (end - pos) as nat)),
        r is None ==> unhead(bytes@.skip(pos as int)) is None,
{
    if pos >= bytes.len() {
        return None;
    }
    let ghost tail = bytes@.skip(pos as int);
    let first: u8 = bytes[pos];
    let major: u8 = first / 32;
    let minor: u8 = first % 32;
    assert(tail[0] == first);
    if minor < 24 {
        return Some((major, minor as u64, pos + 1));
    }
    if minor > 27 {
        return None;
    }
    let width: usize = if minor == 24 {
        1
    } else if minor == 25 {
        2
    } else if minor == 26 {
        4
    } else {
        8
    };
    if bytes.len() - pos < 1 + width {
        return None;
    }
    let n = read_be(bytes, pos + 1, width);
    proof {
        assert(tail.subrange(1, 1 + width) =~= bytes@.subrange(pos + 1, pos + 1 + width));
        lemma_be_bytes_of_value(tail.subrange(1, 1 + width));
        lemma_be_limits();
        lemma_be_limit_grows(width as nat, 8);
    }
    let shortest: bool = if width == 1 {
        n >= 24
    } else if width == 2 {
        n >= 0x100
    } else if width == 4 {
        n >= 0x1_0000
    } else {
        n >= 0x1_0000_0000
    };
    if !shortest {
        return None;
    }
    Some((major, n as u64, pos + 1 + width))
}

/// What follows a prefix is what was appended to it.
pub proof fn lemma_skip_prefix(a: Seq<u8>, b: Seq<u8>)
    ensures
        (a + b).skip(a.len() as int) == b,
        (a + b).take(a.len() as int) == a,
{
    assert((a + b).skip(a.len() as int) =~= b);
    assert((a + b).take(a.len() as int) =~= a);
}

/// A prefix falls apart into a shorter prefix and what follows it.
pub proof fn lemma_take_split(bytes: Seq<u8>, a: nat, b: nat)
    requires
        a + b <= bytes.len(),
    ensures
        bytes.take((a + b) as int) == bytes.take(a as int) + bytes.skip(a as int).take(b as int),
        bytes.skip(a as int).skip(b as int) == bytes.skip((a + b) as int),
{
    assert(bytes.take((a + b) as int) =~= bytes.take(a as int) + bytes.skip(a as int).take(
        b as int,
    ));
    assert(bytes.skip(a as int).skip(b as int) =~= bytes.skip((a + b) as int));
}

/// A string of raw bytes with the head that announces its length.
pub open spec fn wire_blob(major: u8, payload: Seq<u8>) -> Seq<u8> {
    head(major, payload.len()) + payload
}

/// The announced string of raw bytes that `bytes` start with, and the
/// length of head and string together.
pub open spec fn unwire_blob(major: u8, bytes: Seq<u8>) -> Option<(Seq<u8>, nat)> {
    match unhead(bytes) {
        None => None,
        Some((m, n, k)) => if m != major || bytes.len() < k + n {
            None
        } else {
            Some((bytes.subrange(k as int, (k + n) as int), k + n))
        },
    }
}

/// An announced string that was written is read again, whatever follows.
pub proof fn lemma_unwire_blob(major: u8, payload: Seq<u8>, rest: Seq<u8>)
    requires
        major < 8,
        payload.len() <= u64::MAX,
    ensures
        unwire_blob(major, wire_blob(major, payload) + rest) == Some(
            (payload, wire_blob(major, payload).len()),
        ),
{
    let h = head(major, payload.len());
    lemma_unhead_head(major, payload.len(), payload + rest);
    let bytes = wire_blob(major, payload) + rest;
    assert(bytes =~= h + (payload + rest));
    assert(bytes.subrange(h.len() as int, (h.len() + payload.len()) as int) =~= payload);
}

/// An announced string that was read is what is written for it.
pub proof fn lemma_wire_blob_unwire(major: u8, bytes: Seq<u8>)
    requires
        unwire_blob(major, bytes) is Some,
    ensures
        ({
            let (payload, k) = unwire_blob(major, bytes)->0;
            &&& major < 8
            &&& payload.len() <= u64::MAX
            &&& 1 <= k <= bytes.len()
            &&& bytes.take(k as int) == wire_blob(major, payload)
        }),
{
    let (m, n, k) = unhead(bytes)->0;
    lemma_head_unhead(bytes);
    assert(bytes.take((k + n) as int) =~= bytes.take(k as int) + bytes.subrange(
        k as int,
        (k + n) as int,
    ));
}

/// Appends an announced string of raw bytes.
pub fn write_blob(major: u8, payload: &[u8], out: &mut Vec<u8>)
    requires
        major < 8,
    ensures
        payload@.len() <= u64::MAX,
        final(out)@ == old(out)@ + wire_blob(major, payload@),
{
    let ghost start = out@;
    write_head(major, payload.len() as u64, out);
    out.extend_from_slice(payload);
    proof {
        assert(out@ =~= start + wire_blob(major, payload@));
    }
}

/// Reads the announced string of raw bytes that starts at `pos`, and where
/// it ends.
pub fn read_blob(major: u8, bytes: &[u8], pos: usize) -> (r: Option<(Vec<u8>, usize)>)
    requires
        pos <= bytes.len(),
    ensures
        r matches Some((payload, end)) ==> pos < end <= bytes.len() && unwire_blob(
            major,
            bytes@.skip(pos as int),
        ) == Some((payload@, (end - pos) as nat)),
        r is None ==> unwire_blob(major, bytes@.skip(pos as int)) is None,
{
    let (found, n, start) = match read_head(bytes, pos) {
        Some(h) => h,
        None => {
            return None;
        },
    };
    if found != major {
        return None;
    }
    if n > (bytes.len() - start) as u64 {
        return None;
    }
    let end: usize = start + n as usize;
    let payload = slice_to_vec(slice_subrange(bytes, start, end));
    proof {
        let tail = bytes@.skip(pos as int);
        assert(tail.subrange(start - pos, end - pos) =~= bytes@.subrange(start as int, end as int));
    }
    Some((payload, end))
}

/// The error of `String::from_utf8`. Nothing is read from it.
#[verifier::external_type_specification]
#[verifier::external_body]
pub struct ExFromUtf8Error(std::string::FromUtf8Error);

/// `String::from_utf8`.
///
/// Not proved. The claim: the call succeeds exactly on well-formed UTF-8,
/// and the string it returns holds the characters that the bytes encode.
#[verifier::external_body]
fn string_from_utf8(bytes: Vec<u8>) -> (r: Result<String, std::string::FromUtf8Error>)
    ensures
        r is Ok <==> valid_utf8(bytes@),
        r matches Ok(text) ==> text@ == decode_utf8(bytes@),
{
    String::from_utf8(bytes)
}

/// A record with a place in the snapshot's bytes.
pub trait Wire: Sized + DeepView {
    /// The record's lengths fit the heads that announce them.
    spec fn fits(v: Self::V) -> bool;

    /// The bytes of the record.
    spec fn wire(v: Self::V) -> Seq<u8>;

    /// The record that `bytes` start with, and the length of its bytes.
    spec fn unwire(bytes: Seq<u8>) -> Option<(Self::V, nat)>;

    /// What was written is read again, whatever follows it.
    proof fn lemma_unwire_wire(v: Self::V, rest: Seq<u8>)
        requires
            Self::fits(v),
        ensures
            Self::unwire(Self::wire(v) + rest) == Some((v, Self::wire(v).len())),
    ;

    /// What was read is what is written for the record.
    proof fn lemma_wire_unwire(bytes: Seq<u8>)
        requires
            Self::unwire(bytes) is Some,
        ensures
            ({
                let (v, k) = Self::unwire(bytes)->0;
                &&& Self::fits(v)
                &&& 1 <= k <= bytes.len()
                &&& bytes.take(k as int) == Self::wire(v)
            }),
    ;

    /// Appends the bytes of the record.
    fn write(&self, out: &mut Vec<u8>)
        ensures
            Self::fits(self.deep_view()),
            final(out)@ == old(out)@ + Self::wire(self.deep_view()),
    ;

    /// Reads the record that starts at `pos`, and where it ends.
    fn read(bytes: &[u8], pos: usize) -> (r: Option<(Self, usize)>)
        requires
            pos <= bytes.len(),
        ensures
            r matches Some((item, end)) ==> pos < end <= bytes.len() && Self::unwire(
                bytes@.skip(pos as int),
            ) == Some((item.deep_view(), (end - pos) as nat)),
            r is None ==> Self::unwire(bytes@.skip(pos as int)) is None,
    ;
}

/// The bytes of the records of a list, one after the other.
pub open spec fn wire_all<T: Wire>(items: Seq<T::V>) -> Seq<u8>
    decreases items.len(),
{
    if items.len() == 0 {
        Seq::empty()
    } else {
        T::wire(items.first()) + wire_all::<T>(items.drop_first())
    }
}

/// Every record of the list fits.
pub open spec fn fit_all<T: Wire>(items: Seq<T::V>) -> bool {
    forall|i: int| 0 <= i < items.len() ==> T::fits(#[trigger] items[i])
}

/// The `n` records that `bytes` start with, and the length of their bytes.
pub open spec fn unwire_n<T: Wire>(bytes: Seq<u8>, n: nat) -> Option<(Seq<T::V>, nat)>
    decreases n,
{
    if n == 0 {
        Some((Seq::empty(), 0nat))
    } else {
        match T::unwire(bytes) {
            None => None,
            Some((v, k)) => match unwire_n::<T>(bytes.skip(k as int), (n - 1) as nat) {
                None => None,
                Some((vs, m)) => Some((seq![v] + vs, k + m)),
            },
        }
    }
}

/// A record appended to a list is written after the list.
pub proof fn lemma_wire_all_push<T: Wire>(items: Seq<T::V>, v: T::V)
    ensures
        wire_all::<T>(items.push(v)) == wire_all::<T>(items) + T::wire(v),
    decreases items.len(),
{
    if items.len() == 0 {
        let one = items.push(v);
        assert(one.first() == v);
        assert(one.drop_first().len() == 0);
        assert(wire_all::<T>(one.drop_first()) =~= Seq::empty());
        assert(wire_all::<T>(items) =~= Seq::empty());
        assert(wire_all::<T>(one) =~= wire_all::<T>(items) + T::wire(v));
    } else {
        lemma_wire_all_push::<T>(items.drop_first(), v);
        assert(items.push(v).drop_first() =~= items.drop_first().push(v));
        assert(wire_all::<T>(items.push(v)) =~= wire_all::<T>(items) + T::wire(v));
    }
}

/// A list that was written is read again, whatever follows it.
pub proof fn lemma_unwire_all<T: Wire>(items: Seq<T::V>, rest: Seq<u8>)
    requires
        fit_all::<T>(items),
    ensures
        unwire_n::<T>(wire_all::<T>(items) + rest, items.len()) == Some(
            (items, wire_all::<T>(items).len()),
        ),
    decreases items.len(),
{
    if items.len() == 0 {
        assert(items =~= Seq::empty());
    } else {
        let first = items.first();
        let others = items.drop_first();
        let a = T::wire(first);
        let b = wire_all::<T>(others);
        assert(T::fits(items[0]));
        assert forall|i: int| 0 <= i < others.len() implies T::fits(#[trigger] others[i]) by {
            assert(T::fits(items[i + 1]));
        }
        T::lemma_unwire_wire(first, b + rest);
        assert(wire_all::<T>(items) + rest =~= a + (b + rest));
        lemma_skip_prefix(a, b + rest);
        lemma_unwire_all::<T>(others, rest);
        assert(seq![first] + others =~= items);
    }
}

/// A list that was read is what is written for its records.
pub proof fn lemma_wire_all_unwire<T: Wire>(bytes: Seq<u8>, n: nat)
    requires
        unwire_n::<T>(bytes, n) is Some,
    ensures
        ({
            let (vs, k) = unwire_n::<T>(bytes, n)->0;
            &&& vs.len() == n
            &&& fit_all::<T>(vs)
            &&& n <= k <= bytes.len()
            &&& bytes.take(k as int) == wire_all::<T>(vs)
        }),
    decreases n,
{
    if n == 0 {
        assert(bytes.take(0) =~= Seq::empty());
    } else {
        let (v, k) = T::unwire(bytes)->0;
        T::lemma_wire_unwire(bytes);
        lemma_wire_all_unwire::<T>(bytes.skip(k as int), (n - 1) as nat);
        let (vs, m) = unwire_n::<T>(bytes.skip(k as int), (n - 1) as nat)->0;
        lemma_take_split(bytes, k, m);
        assert((seq![v] + vs).drop_first() =~= vs);
    }
}

/// A list of records with the head that announces how many they are.
pub open spec fn wire_list<T: Wire>(major: u8, items: Seq<T::V>) -> Seq<u8> {
    head(major, items.len()) + wire_all::<T>(items)
}

/// The list fits: its length and every record of it.
pub open spec fn fit_list<T: Wire>(items: Seq<T::V>) -> bool {
    items.len() <= u64::MAX && fit_all::<T>(items)
}

/// The announced list that `bytes` start with, and the length of its
/// bytes.
pub open spec fn unwire_list<T: Wire>(major: u8, bytes: Seq<u8>) -> Option<(Seq<T::V>, nat)> {
    match unhead(bytes) {
        None => None,
        Some((m, n, k)) => if m != major {
            None
        } else {
            match unwire_n::<T>(bytes.skip(k as int), n) {
                None => None,
                Some((vs, len)) => Some((vs, k + len)),
            }
        },
    }
}

/// An announced list that was written is read again, whatever follows it.
pub proof fn lemma_unwire_list<T: Wire>(major: u8, items: Seq<T::V>, rest: Seq<u8>)
    requires
        major < 8,
        fit_list::<T>(items),
    ensures
        unwire_list::<T>(major, wire_list::<T>(major, items) + rest) == Some(
            (items, wire_list::<T>(major, items).len()),
        ),
{
    let h = head(major, items.len());
    let body = wire_all::<T>(items);
    lemma_unhead_head(major, items.len(), body + rest);
    assert(wire_list::<T>(major, items) + rest =~= h + (body + rest));
    lemma_skip_prefix(h, body + rest);
    lemma_unwire_all::<T>(items, rest);
}

/// An announced list that was read is what is written for its records.
pub proof fn lemma_wire_list_unwire<T: Wire>(major: u8, bytes: Seq<u8>)
    requires
        unwire_list::<T>(major, bytes) is Some,
    ensures
        ({
            let (vs, k) = unwire_list::<T>(major, bytes)->0;
            &&& major < 8
            &&& fit_list::<T>(vs)
            &&& 1 <= k <= bytes.len()
            &&& bytes.take(k as int) == wire_list::<T>(major, vs)
        }),
{
    let (m, n, k) = unhead(bytes)->0;
    lemma_head_unhead(bytes);
    lemma_wire_all_unwire::<T>(bytes.skip(k as int), n);
    let (vs, len) = unwire_n::<T>(bytes.skip(k as int), n)->0;
    lemma_take_split(bytes, k, len);
}

/// Appends an announced list.
pub fn write_list<T: Wire>(major: u8, items: &Vec<T>, out: &mut Vec<u8>)
    requires
        major < 8,
    ensures
        fit_list::<T>(items.deep_view()),
        final(out)@ == old(out)@ + wire_list::<T>(major, items.deep_view()),
{
    let ghost start = out@;
    let ghost views = items.deep_view();
    write_head(major, items.len() as u64, out);
    let ghost headed = out@;
    let mut i: usize = 0;
    proof {
        assert(views.take(0) =~= Seq::empty());
        assert(out@ =~= headed + wire_all::<T>(views.take(0)));
    }
    while i < items.len()
        invariant
            i <= items.len(),
            views == items.deep_view(),
            out@ == headed + wire_all::<T>(views.take(i as int)),
            forall|j: int| 0 <= j < i ==> T::fits(#[trigger] views[j]),
        decreases items.len() - i,
    {
        let ghost before = out@;
        items[i].write(out);
        proof {
            assert(views[i as int] == items@[i as int].deep_view());
            assert(views.take(i + 1) =~= views.take(i as int).push(views[i as int]));
            lemma_wire_all_push::<T>(views.take(i as int), views[i as int]);
            assert(out@ =~= headed + wire_all::<T>(views.take(i + 1)));
        }
        i += 1;
    }
    proof {
        assert(views.take(items.len() as int) =~= views);
        assert(out@ =~= start + wire_list::<T>(major, views));
    }
}

/// Reads the announced list that starts at `pos`, and where it ends.
pub fn read_list<T: Wire>(major: u8, bytes: &[u8], pos: usize) -> (r: Option<(Vec<T>, usize)>)
    requires
        pos <= bytes.len(),
    ensures
        r matches Some((items, end)) ==> pos < end <= bytes.len() && unwire_list::<T>(
            major,
            bytes@.skip(pos as int),
        ) == Some((items.deep_view(), (end - pos) as nat)),
        r is None ==> unwire_list::<T>(major, bytes@.skip(pos as int)) is None,
{
    let ghost tail = bytes@.skip(pos as int);
    let (found, n, start) = match read_head(bytes, pos) {
        Some(h) => h,
        None => {
            return None;
        },
    };
    if found != major {
        return None;
    }
    let ghost body = tail.skip(start - pos);
    proof {
        assert(body =~= bytes@.skip(start as int));
    }
    let mut items: Vec<T> = Vec::new();
    let mut at: usize = start;
    let mut i: u64 = 0;
    proof {
        assert(items.deep_view() =~= Seq::empty());
        assert(bytes@.skip(at as int) == body.skip(0)) by {
            assert(body.skip(0) =~= body);
        }
        let whole = unwire_n::<T>(body, n as nat);
        match whole {
            None => {},
            Some((vs, m)) => {
                assert(items.deep_view() + vs =~= vs);
            },
        }
    }
    while i < n
        invariant
            i <= n,
            pos <= start <= at <= bytes.len(),
            body == bytes@.skip(start as int),
            body == bytes@.skip(pos as int).skip(start - pos),
            unhead(bytes@.skip(pos as int)) == Some((major, n as nat, (start - pos) as nat)),
            unwire_n::<T>(body, n as nat) == (match unwire_n::<T>(
                bytes@.skip(at as int),
                (n - i) as nat,
            ) {
                None => None,
                Some((vs, m)) => Some((items.deep_view() + vs, (at - start + m) as nat)),
            }),
        decreases n - i,
    {
        let ghost here = bytes@.skip(at as int);
        let ghost before = items.deep_view();
        match T::read(bytes, at) {
            None => {
                return None;
            },
            Some((item, end)) => {
                proof {
                    assert(here.skip(end - at) =~= bytes@.skip(end as int));
                    let next = unwire_n::<T>(bytes@.skip(end as int), (n - i - 1) as nat);
                    match next {
                        None => {},
                        Some((vs, m)) => {
                            assert(before + (seq![item.deep_view()] + vs) =~= before.push(
                                item.deep_view(),
                            ) + vs);
                        },
                    }
                }
                items.push(item);
                proof {
                    assert(items.deep_view() =~= before.push(item.deep_view()));
                }
                at = end;
            },
        }
        i += 1;
    }
    proof {
        assert(items.deep_view() + Seq::empty() =~= items.deep_view());
    }
    Some((items, at))
}

/// A text: the head that announces the length of its UTF-8 bytes, then
/// the bytes.
impl Wire for String {
    open spec fn fits(v: Seq<char>) -> bool {
        encode_utf8(v).len() <= u64::MAX
    }

    open spec fn wire(v: Seq<char>) -> Seq<u8> {
        wire_blob(MAJOR_TEXT, encode_utf8(v))
    }

    open spec fn unwire(bytes: Seq<u8>) -> Option<(Seq<char>, nat)> {
        match unwire_blob(MAJOR_TEXT, bytes) {
            None => None,
            Some((payload, k)) => if valid_utf8(payload) {
                Some((decode_utf8(payload), k))
            } else {
                None
            },
        }
    }

    proof fn lemma_unwire_wire(v: Seq<char>, rest: Seq<u8>) {
        lemma_unwire_blob(MAJOR_TEXT, encode_utf8(v), rest);
        encode_utf8_valid_utf8(v);
        encode_utf8_decode_utf8(v);
    }

    proof fn lemma_wire_unwire(bytes: Seq<u8>) {
        lemma_wire_blob_unwire(MAJOR_TEXT, bytes);
        let (payload, k) = unwire_blob(MAJOR_TEXT, bytes)->0;
        decode_utf8_encode_utf8(payload);
    }

    fn write(&self, out: &mut Vec<u8>) {
        write_blob(MAJOR_TEXT, self.as_str().as_bytes(), out);
    }

    fn read(bytes: &[u8], pos: usize) -> (r: Option<(Self, usize)>) {
        let (payload, end) = match read_blob(MAJOR_TEXT, bytes, pos) {
            Some(found) => found,
            None => {
                return None;
            },
        };
        match string_from_utf8(payload) {
            Ok(text) => Some((text, end)),
            Err(_) => None,
        }
    }
}

} // verus!
