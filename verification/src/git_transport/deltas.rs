use crate::gitr_errors::GitrError;
use crate::text::push_range;
use vstd::prelude::*;

verus! {

/// The block that a copy instruction with length 0 copies.
pub const MAX_COPY_BLOCK: usize = 0x10000;

/// The most bytes that a variable-length number may take here.
pub const MAX_VARINT_BYTES: usize = 10;

/// The first index at or after `from` whose byte has its top bit clear, or
/// `data.len()` when there is none: where a variable-length number that
/// starts at `from` ends.
pub open spec fn last_byte_from(data: Seq<u8>, from: int) -> int
    decreases data.len() - from,
{
    if from < 0 || from >= data.len() {
        data.len() as int
    } else if data[from] < 128 {
        from
    } else {
        last_byte_from(data, from + 1)
    }
}

/// The last byte of a number lies between `from` and the end of the data.
pub proof fn lemma_last_byte_from(data: Seq<u8>, from: int)
    requires
        0 <= from <= data.len(),
    ensures
        from <= last_byte_from(data, from) <= data.len(),
        last_byte_from(data, from) < data.len() ==> data[last_byte_from(data, from)] < 128,
        forall|j: int| from <= j < last_byte_from(data, from) ==> data[j] >= 128,
    decreases data.len() - from,
{
    if from < data.len() && data[from] >= 128 {
        lemma_last_byte_from(data, from + 1);
    }
}

/// The number spelled by the `n` bytes at `pos`, seven bits each, least
/// significant first.
pub open spec fn varint_value(data: Seq<u8>, pos: int, n: int) -> nat
    decreases n,
{
    if n <= 0 {
        0
    } else {
        (data[pos] % 128 + 128 * varint_value(data, pos + 1, n - 1)) as nat
    }
}

/// Reads a variable-length number at `pos`: its value and the position after
/// it. `TruncatedPack` when the bytes end before a byte with its top bit
/// clear; `MalformedObject` when the number takes more than
/// `MAX_VARINT_BYTES` bytes or does not fit in a `usize`.
pub open spec fn varint_at(data: Seq<u8>, pos: int) -> Result<(usize, int), GitrError> {
    let end = last_byte_from(data, pos);
    let n = end - pos + 1;
    if pos < 0 || end >= data.len() {
        Err(GitrError::TruncatedPack)
    } else if n > MAX_VARINT_BYTES || varint_value(data, pos, n) > usize::MAX {
        Err(GitrError::MalformedObject)
    } else {
        Ok((varint_value(data, pos, n) as usize, end + 1))
    }
}

/// The offset spelled by the `n` bytes at the start of `data`, seven bits
/// each, most significant first, with one added before each further byte.
pub open spec fn offset_value(data: Seq<u8>, n: int) -> nat
    decreases n,
{
    if n <= 0 {
        0
    } else if n == 1 {
        (data[0] % 128) as nat
    } else {
        ((offset_value(data, n - 1) + 1) * 128 + data[n - 1] % 128) as nat
    }
}

/// Reads the backward offset at the start of `data`: its value and the
/// number of bytes it takes. Errors as for `varint_at`.
pub open spec fn offset_at(data: Seq<u8>) -> Result<(usize, usize), GitrError> {
    let end = last_byte_from(data, 0);
    let n = end + 1;
    if end >= data.len() {
        Err(GitrError::TruncatedPack)
    } else if n > MAX_VARINT_BYTES || offset_value(data, n) > usize::MAX {
        Err(GitrError::MalformedObject)
    } else {
        Ok((offset_value(data, n) as usize, n as usize))
    }
}

proof fn lemma_varint_bound(data: Seq<u8>, pos: int, n: int)
    requires
        0 <= n <= 10,
    ensures
        varint_value(data, pos, n) < pow128(n),
    decreases n,
{
    if n > 0 {
        lemma_varint_bound(data, pos + 1, n - 1);
    }
}

/// 128 to the power `n`, for `n` up to 11.
pub open spec fn pow128(n: int) -> int {
    if n <= 0 {
        1
    } else if n == 1 {
        0x80
    } else if n == 2 {
        0x4000
    } else if n == 3 {
        0x20_0000
    } else if n == 4 {
        0x1000_0000
    } else if n == 5 {
        0x8_0000_0000
    } else if n == 6 {
        0x400_0000_0000
    } else if n == 7 {
        0x2_0000_0000_0000
    } else if n == 8 {
        0x100_0000_0000_0000
    } else if n == 9 {
        0x8000_0000_0000_0000
    } else if n == 10 {
        0x40_0000_0000_0000_0000
    } else {
        0x2000_0000_0000_0000_0000
    }
}

/// Taking one more byte adds its seven bits above those already read.
proof fn lemma_varint_step(data: Seq<u8>, pos: int, k: int)
    requires
        0 <= k < 10,
    ensures
        varint_value(data, pos, k + 1) == varint_value(data, pos, k) + pow128(k) * (data[pos + k]
            % 128),
    decreases k,
{
    if k == 0 {
        assert(varint_value(data, pos + 1, 0) == 0);
        assert(varint_value(data, pos, 0) == 0);
    } else {
        lemma_varint_step(data, pos + 1, k - 1);
        assert(pow128(k) == 128 * pow128(k - 1));
        let rest = varint_value(data, pos + 1, k - 1);
        let d = (data[pos + k] % 128) as int;
        assert(128 * (rest + pow128(k - 1) * d) == 128 * rest + pow128(k) * d) by (nonlinear_arith)
            requires
                pow128(k) == 128 * pow128(k - 1),
        ;
    }
}

/// Reads a variable-length number at `pos`.
pub fn read_varint(data: &[u8], pos: usize) -> (r: Result<(usize, usize), GitrError>)
    ensures
        match r {
            Ok((value, next)) => varint_at(data@, pos as int) == Ok::<(usize, int), GitrError>(
                (value, next as int),
            ) && pos < next <= data@.len(),
            Err(e) => varint_at(data@, pos as int) == Err::<(usize, int), GitrError>(e),
        },
{
    if pos >= data.len() {
        return Err(GitrError::TruncatedPack);
    }
    let mut acc: u128 = 0;
    let mut mult: u128 = 1;
    let mut k: usize = 0;
    proof {
        lemma_last_byte_from(data@, pos as int);
    }
    while pos + k < data.len() && data[pos + k] >= 128
        invariant
            pos + k <= data@.len(),
            data@.len() <= usize::MAX,
            pos < data@.len(),
            k <= 9,
            mult == pow128(k as int),
            acc == varint_value(data@, pos as int, k as int),
            acc < pow128(k as int),
            last_byte_from(data@, pos as int) == last_byte_from(data@, (pos + k) as int),
        decreases data@.len() - (pos + k),
    {
        if k >= 9 {
            proof {
                lemma_last_byte_from(data@, (pos + k) as int + 1);
            }
            if find_end(data, pos + k + 1) >= data.len() {
                return Err(GitrError::TruncatedPack);
            }
            return Err(GitrError::MalformedObject);
        }
        proof {
            lemma_varint_step(data@, pos as int, k as int);
            lemma_varint_bound(data@, pos as int, k as int + 1);
            assert(pow128(k as int + 1) == 128 * pow128(k as int));
        }
        let d: u128 = (data[pos + k] % 128) as u128;
        assert(mult * d <= mult * 127) by (nonlinear_arith)
            requires
                d <= 127,
                mult >= 0,
        ;
        acc = acc + mult * d;
        mult = mult * 128;
        k = k + 1;
    }
    if pos + k >= data.len() {
        return Err(GitrError::TruncatedPack);
    }
    proof {
        lemma_varint_step(data@, pos as int, k as int);
        lemma_varint_bound(data@, pos as int, k as int + 1);
        assert(pow128(k as int + 1) == 128 * pow128(k as int));
    }
    let d: u128 = (data[pos + k] % 128) as u128;
    assert(mult * d <= mult * 127) by (nonlinear_arith)
        requires
            d <= 127,
            mult >= 0,
    ;
    acc = acc + mult * d;
    if acc > usize::MAX as u128 {
        return Err(GitrError::MalformedObject);
    }
    Ok((acc as usize, pos + k + 1))
}

/// Executable `last_byte_from`.
pub fn find_end(data: &[u8], from: usize) -> (r: usize)
    requires
        from <= data@.len(),
    ensures
        r as int == last_byte_from(data@, from as int),
        from <= r <= data@.len(),
{
    let mut i: usize = from;
    while i < data.len() && data[i] >= 128
        invariant
            from <= i <= data@.len(),
            last_byte_from(data@, from as int) == last_byte_from(data@, i as int),
        decreases data@.len() - i,
    {
        i = i + 1;
    }
    i
}

/// Reads the backward offset that opens an offset-delta record: the offset
/// and the number of bytes it takes.
pub fn get_offset(data: &[u8]) -> (r: Result<(usize, usize), GitrError>)
    ensures
        r == offset_at(data@),
        r matches Ok((ofs, used)) ==> 0 < used <= data@.len(),
{
    let end = find_end(data, 0);
    if end >= data.len() {
        return Err(GitrError::TruncatedPack);
    }
    if end + 1 > MAX_VARINT_BYTES {
        return Err(GitrError::MalformedObject);
    }
    let mut acc: u128 = (data[0] % 128) as u128;
    let mut k: usize = 1;
    while k <= end
        invariant
            1 <= k <= end + 1,
            end < 10,
            end < data@.len(),
            acc == offset_value(data@, k as int),
            acc + 2 < pow128(k as int) * 2,
        decreases end + 1 - k,
    {
        proof {
            assert(pow128(k as int + 1) == 128 * pow128(k as int));
        }
        acc = (acc + 1) * 128 + (data[k] % 128) as u128;
        k = k + 1;
    }
    if acc > usize::MAX as u128 {
        return Err(GitrError::MalformedObject);
    }
    Ok((acc as usize, end + 1))
}

/// Looking for the end of a number in a suffix is looking for it in the whole.
pub proof fn lemma_last_byte_in_suffix(data: Seq<u8>, start: int, from: int)
    requires
        0 <= start <= data.len(),
        0 <= from <= data.len() - start,
    ensures
        last_byte_from(data.subrange(start, data.len() as int), from) == last_byte_from(
            data,
            start + from,
        ) - start,
    decreases data.len() - start - from,
{
    let suffix = data.subrange(start, data.len() as int);
    if from < suffix.len() {
        assert(suffix[from] == data[start + from]);
        if suffix[from] >= 128 {
            lemma_last_byte_in_suffix(data, start, from + 1);
        }
    }
}

/// The value of a number in a suffix is its value in the whole.
pub proof fn lemma_value_in_suffix(data: Seq<u8>, start: int, pos: int, n: int)
    requires
        0 <= start <= data.len(),
        0 <= pos,
        pos + n <= data.len() - start,
    ensures
        varint_value(data.subrange(start, data.len() as int), pos, n) == varint_value(
            data,
            start + pos,
            n,
        ),
    decreases n,
{
    if n > 0 {
        lemma_value_in_suffix(data, start, pos + 1, n - 1);
    }
}

/// Reading a number in a suffix is reading it in the whole, shifted.
pub proof fn lemma_varint_in_suffix(data: Seq<u8>, start: int, pos: int)
    requires
        0 <= start <= data.len(),
        0 <= pos,
    ensures
        varint_at(data, start + pos) == match varint_at(
            data.subrange(start, data.len() as int),
            pos,
        ) {
            Ok((v, next)) => Ok::<(usize, int), GitrError>((v, next + start)),
            Err(e) => Err::<(usize, int), GitrError>(e),
        },
{
    let suffix = data.subrange(start, data.len() as int);
    if pos <= suffix.len() {
        lemma_last_byte_in_suffix(data, start, pos);
        lemma_last_byte_from(data, start + pos);
        let end = last_byte_from(suffix, pos);
        if end < suffix.len() {
            lemma_value_in_suffix(data, start, pos, end - pos + 1);
        }
    }
}

/// The bytes that spell `n` as a variable-length number.
pub open spec fn varint_bytes(n: nat) -> Seq<u8>
    decreases n,
{
    if n < 128 {
        seq![n as u8]
    } else {
        seq![(128 + n % 128) as u8] + varint_bytes(n / 128)
    }
}

/// A number below 128 to the power `k` takes at most `k` bytes.
pub proof fn lemma_varint_len(n: nat, k: int)
    requires
        1 <= k <= 10,
        n < pow128(k),
    ensures
        1 <= varint_bytes(n).len() <= k,
    decreases n,
{
    if n >= 128 {
        assert(pow128(k) == 128 * pow128(k - 1));
        lemma_varint_len(n / 128, k - 1);
    }
}

/// The bytes of a number, wherever they stand, end where they should and
/// spell the number.
pub proof fn lemma_varint_bytes(prefix: Seq<u8>, n: nat, rest: Seq<u8>)
    ensures
        ({
            let bytes = prefix + varint_bytes(n) + rest;
            let pos = prefix.len() as int;
            let len = varint_bytes(n).len() as int;
            &&& len >= 1
            &&& last_byte_from(bytes, pos) == pos + len - 1
            &&& varint_value(bytes, pos, len) == n
        }),
    decreases n,
{
    let bytes = prefix + varint_bytes(n) + rest;
    let pos = prefix.len() as int;
    if n < 128 {
        assert(bytes[pos] == n as u8);
        assert(varint_value(bytes, pos + 1, 0) == 0);
    } else {
        let first = (128 + n % 128) as u8;
        let prefix2 = prefix.push(first);
        lemma_varint_bytes(prefix2, n / 128, rest);
        assert(bytes =~= prefix2 + varint_bytes(n / 128) + rest);
        assert(bytes[pos] == first);
        assert(first % 128 == n % 128);
    }
}

/// A number that fits in a `usize` is read back from its bytes.
pub proof fn lemma_varint_round_trip(prefix: Seq<u8>, n: usize, rest: Seq<u8>)
    ensures
        varint_at(prefix + varint_bytes(n as nat) + rest, prefix.len() as int) == Ok::<
            (usize, int),
            GitrError,
        >((n, (prefix + varint_bytes(n as nat)).len() as int)),
{
    lemma_varint_bytes(prefix, n as nat, rest);
    assert(n < pow128(10)) by {
        assert(usize::MAX <= 0xffff_ffff_ffff_ffff);
    }
    lemma_varint_len(n as nat, 10);
}

/// Appends `n` as a variable-length number.
pub fn write_varint(out: &mut Vec<u8>, n: usize)
    ensures
        final(out)@ == old(out)@ + varint_bytes(n as nat),
    decreases n,
{
    if n < 128 {
        out.push(n as u8);
        assert(out@ =~= old(out)@ + varint_bytes(n as nat));
    } else {
        out.push((128 + n % 128) as u8);
        let ghost mid = out@;
        write_varint(out, n / 128);
        assert(out@ =~= old(out)@ + varint_bytes(n as nat));
    }
}

/// Whether bit `k` of `op` is set, for `k` from 0 to 5.
pub open spec fn bit(op: u8, k: int) -> bool {
    if k == 0 {
        op % 2 == 1
    } else if k == 1 {
        (op / 2) % 2 == 1
    } else if k == 2 {
        (op / 4) % 2 == 1
    } else if k == 3 {
        (op / 8) % 2 == 1
    } else if k == 4 {
        (op / 16) % 2 == 1
    } else {
        (op / 32) % 2 == 1
    }
}

/// An operand byte of a copy instruction: when `present`, the byte at `pos`
/// and the position after it; otherwise 0 and `pos` itself.
pub open spec fn operand(data: Seq<u8>, pos: int, present: bool) -> (int, int) {
    if present {
        (
            if 0 <= pos < data.len() {
                data[pos] as int
            } else {
                0
            },
            pos + 1,
        )
    } else {
        (0, pos)
    }
}

/// A number of up to three bytes, least significant first, read at `pos`:
/// each byte is present or stands for 0. The value and the position after it.
pub open spec fn le3(data: Seq<u8>, pos: int, f0: bool, f1: bool, f2: bool) -> (int, int) {
    let a = operand(data, pos, f0);
    let b = operand(data, a.1, f1);
    let c = operand(data, b.1, f2);
    (a.0 + b.0 * 0x100 + c.0 * 0x10000, c.1)
}

/// The arguments of the copy instruction whose opcode stands at `pos`: the
/// offset into the base, the number of bytes to copy, and the number of
/// operand bytes that follow the opcode. Bits 0 to 2 of the opcode say which
/// bytes of the offset are present, bits 3 to 5 which bytes of the length,
/// least significant first; an absent byte is 0, and a length of 0 stands for
/// `MAX_COPY_BLOCK`. `None` when the bytes end before the last operand.
#[verifier::opaque]
pub open spec fn copy_args(data: Seq<u8>, pos: int) -> Option<(int, int, int)> {
    let op = data[pos];
    let ofs = le3(data, pos + 1, bit(op, 0), bit(op, 1), bit(op, 2));
    let len = le3(data, ofs.1, bit(op, 3), bit(op, 4), bit(op, 5));
    if pos < 0 || pos >= data.len() || len.1 > data.len() {
        None
    } else {
        Some(
            (
                ofs.0,
                if len.0 == 0 {
                    MAX_COPY_BLOCK as int
                } else {
                    len.0
                },
                len.1 - pos - 1,
            ),
        )
    }
}

/// Runs the instructions that stand in `delta` from `pos` on, appending to
/// `out`. An opcode below 128 inserts that many of the bytes that follow it;
/// any other opcode copies from `base`. `TruncatedPack` when an instruction
/// is cut short, `MalformedObject` when a copy reaches beyond `base`.
pub open spec fn run_delta(base: Seq<u8>, delta: Seq<u8>, pos: int, out: Seq<u8>) -> Result<
    Seq<u8>,
    GitrError,
>
    decreases delta.len() - pos,
{
    if pos < 0 || pos >= delta.len() {
        Ok(out)
    } else if delta[pos] < 128 {
        let n = delta[pos] as int;
        if pos + 1 + n > delta.len() {
            Err(GitrError::TruncatedPack)
        } else {
            run_delta(base, delta, pos + 1 + n, out + delta.subrange(pos + 1, pos + 1 + n))
        }
    } else {
        match copy_args(delta, pos) {
            None => Err(GitrError::TruncatedPack),
            Some((ofs, len, used)) => if used < 0 || pos + 1 + used > delta.len() {
                Err(GitrError::TruncatedPack)
            } else if ofs < 0 || len < 0 || ofs + len > base.len() {
                Err(GitrError::MalformedObject)
            } else {
                run_delta(base, delta, pos + 1 + used, out + base.subrange(ofs, ofs + len))
            },
        }
    }
}

/// The size of the result that a delta declares: the second of the two
/// variable-length numbers that open it.
pub open spec fn declared_result_size(delta: Seq<u8>) -> Result<usize, GitrError> {
    match varint_at(delta, 0) {
        Err(e) => Err(e),
        Ok((base_size, at1)) => match varint_at(delta, at1) {
            Err(e) => Err(e),
            Ok((result_size, at2)) => Ok(result_size),
        },
    }
}

/// Applies `delta` to `base`: reads the declared sizes of base and result,
/// runs the instructions, and checks that the result has the declared size
/// (`MalformedObject` when it has not).
pub open spec fn apply_delta(base: Seq<u8>, delta: Seq<u8>) -> Result<Seq<u8>, GitrError> {
    match varint_at(delta, 0) {
        Err(e) => Err(e),
        Ok((base_size, at1)) => match varint_at(delta, at1) {
            Err(e) => Err(e),
            Ok((result_size, at2)) => match run_delta(base, delta, at2, Seq::empty()) {
                Err(e) => Err(e),
                Ok(out) => if out.len() == result_size {
                    Ok(out)
                } else {
                    Err(GitrError::MalformedObject)
                },
            },
        },
    }
}

/// Whatever a delta is applied to, a result has the size that the delta declares.
pub proof fn lemma_result_size(base: Seq<u8>, delta: Seq<u8>)
    requires
        apply_delta(base, delta) is Ok,
    ensures
        declared_result_size(delta) is Ok,
        apply_delta(base, delta).unwrap().len() == declared_result_size(delta).unwrap(),
{
}

fn count(present: bool) -> (r: usize)
    ensures
        r == if present {
            1usize
        } else {
            0usize
        },
{
    if present {
        1
    } else {
        0
    }
}

fn read_operand(data: &[u8], pos: usize, present: bool) -> (r: (usize, usize))
    requires
        present ==> pos < data@.len(),
    ensures
        (r.0 as int, r.1 as int) == operand(data@, pos as int, present),
        r.0 < 256,
        r.1 == pos + if present {
            1int
        } else {
            0int
        },
{
    if present {
        (data[pos] as usize, pos + 1)
    } else {
        (0, pos)
    }
}

/// Reads a number of up to three bytes at `pos`, or `None` when the bytes
/// end before its last byte.
fn read_le3(data: &[u8], pos: usize, f0: bool, f1: bool, f2: bool) -> (r: Option<(usize, usize)>)
    requires
        pos <= data@.len(),
    ensures
        match r {
            Some((value, next)) => le3(data@, pos as int, f0, f1, f2) == (
                value as int,
                next as int,
            ) && pos <= next <= data@.len() && next <= pos + 3 && value < 0x1000000,
            None => le3(data@, pos as int, f0, f1, f2).1 > data@.len(),
        },
{
    let need: usize = count(f0) + count(f1) + count(f2);
    if data.len() - pos < need {
        return None;
    }
    let a = read_operand(data, pos, f0);
    let b = read_operand(data, a.1, f1);
    let c = read_operand(data, b.1, f2);
    Some((a.0 + b.0 * 0x100 + c.0 * 0x10000, c.1))
}

/// Reads the copy instruction whose opcode stands at `pos`.
pub fn copy_args_at(data: &[u8], pos: usize) -> (r: Option<(usize, usize, usize)>)
    ensures
        match r {
            Some((ofs, len, used)) => copy_args(data@, pos as int) == Some(
                (ofs as int, len as int, used as int),
            ) && pos + 1 + used <= data@.len() && used <= 6 && ofs < 0x1000000 && 0 < len
                < 0x1000000,
            None => copy_args(data@, pos as int) is None,
        },
{
    reveal(copy_args);
    if pos >= data.len() {
        return None;
    }
    let op: u8 = data[pos];
    let ofs = match read_le3(data, pos + 1, op % 2 == 1, (op / 2) % 2 == 1, (op / 4) % 2 == 1) {
        Some(v) => v,
        None => {
            proof {
                lemma_le3_moves(data@, pos + 1, bit(op, 0), bit(op, 1), bit(op, 2));
                let o = le3(data@, pos + 1, bit(op, 0), bit(op, 1), bit(op, 2));
                lemma_le3_moves(data@, o.1, bit(op, 3), bit(op, 4), bit(op, 5));
            }
            return None;
        },
    };
    let len = match read_le3(data, ofs.1, (op / 8) % 2 == 1, (op / 16) % 2 == 1, (op / 32) % 2 == 1) {
        Some(v) => v,
        None => {
            return None;
        },
    };
    Some(
        (
            ofs.0,
            if len.0 == 0 {
                MAX_COPY_BLOCK
            } else {
                len.0
            },
            len.1 - pos - 1,
        ),
    )
}

/// Reading a number never moves backwards.
proof fn lemma_le3_moves(data: Seq<u8>, pos: int, f0: bool, f1: bool, f2: bool)
    ensures
        pos <= le3(data, pos, f0, f1, f2).1 <= pos + 3,
{
}

/// Reads the copy instruction at the start of `instruction`: the offset into
/// the base, the number of bytes to copy, and the number of operand bytes
/// after the opcode. `TruncatedPack` when the bytes end before the last
/// operand.
pub fn parse_copy_instruction(instruction: &[u8]) -> (r: Result<(usize, usize, usize), GitrError>)
    ensures
        match r {
            Ok((ofs, len, used)) => copy_args(instruction@, 0) == Some(
                (ofs as int, len as int, used as int),
            ),
            Err(e) => copy_args(instruction@, 0) is None && e == GitrError::TruncatedPack,
        },
{
    match copy_args_at(instruction, 0) {
        Some(args) => Ok(args),
        None => Err(GitrError::TruncatedPack),
    }
}

/// Applies `data`, a delta, to `base`.
pub fn transform_delta(data: &[u8], base: &[u8]) -> (r: Result<Vec<u8>, GitrError>)
    ensures
        match r {
            Ok(out) => apply_delta(base@, data@) == Ok::<Seq<u8>, GitrError>(out@)
                && declared_result_size(data@) == Ok::<usize, GitrError>(out@.len() as usize),
            Err(e) => apply_delta(base@, data@) == Err::<Seq<u8>, GitrError>(e),
        },
{
    let (base_size, at1) = match read_varint(data, 0) {
        Ok(v) => v,
        Err(e) => {
            return Err(e);
        },
    };
    let (result_size, at2) = match read_varint(data, at1) {
        Ok(v) => v,
        Err(e) => {
            return Err(e);
        },
    };
    let mut out: Vec<u8> = Vec::new();
    let mut pos: usize = at2;
    while pos < data.len()
        invariant
            pos <= data@.len(),
            varint_at(data@, 0) == Ok::<(usize, int), GitrError>((base_size, at1 as int)),
            varint_at(data@, at1 as int) == Ok::<(usize, int), GitrError>(
                (result_size, at2 as int),
            ),
            run_delta(base@, data@, at2 as int, Seq::empty()) == run_delta(
                base@,
                data@,
                pos as int,
                out@,
            ),
        decreases data@.len() - pos,
    {
        let op: u8 = data[pos];
        if op < 128 {
            let n: usize = op as usize;
            if data.len() - pos - 1 < n {
                return Err(GitrError::TruncatedPack);
            }
            push_range(&mut out, data, pos + 1, pos + 1 + n);
            pos = pos + 1 + n;
        } else {
            let (ofs, len, used) = match copy_args_at(data, pos) {
                Some(args) => args,
                None => {
                    return Err(GitrError::TruncatedPack);
                },
            };
            if ofs + len > base.len() {
                return Err(GitrError::MalformedObject);
            }
            push_range(&mut out, base, ofs, ofs + len);
            pos = pos + 1 + used;
        }
    }
    if out.len() != result_size {
        return Err(GitrError::MalformedObject);
    }
    Ok(out)
}

} // verus!
