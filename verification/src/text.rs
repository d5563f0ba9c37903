use vstd::prelude::*;
use vstd::string::StrSliceExecFns;

verus! {

/// The bytes of a text made of ASCII characters.
pub open spec fn ascii(s: Seq<char>) -> Seq<u8> {
    Seq::new(s.len(), |i: int| s[i] as u8)
}

/// The bytes of an ASCII string.
pub fn bytes_of(s: &str) -> (r: Vec<u8>)
    requires
        s.is_ascii(),
    ensures
        r@ == ascii(s@),
{
    proof {
        vstd::string::is_ascii_spec_bytes(s);
    }
    let v = s.as_bytes_vec();
    assert(v@ =~= ascii(s@));
    v
}

/// Whether `b` occurs nowhere in `s`.
pub open spec fn lacks(s: Seq<u8>, b: u8) -> bool {
    forall|i: int| 0 <= i < s.len() ==> s[i] != b
}

/// An index that holds `b`, with no `b` between `from` and it, is what `find_from` returns.
pub proof fn lemma_find_unique(s: Seq<u8>, b: u8, from: int, at: int)
    requires
        0 <= from <= at <= s.len(),
        forall|j: int| from <= j < at ==> s[j] != b,
        at == s.len() || s[at] == b,
    ensures
        find_from(s, b, from) == at,
    decreases at - from,
{
    if from < at {
        lemma_find_unique(s, b, from + 1, at);
    }
}

/// The first index at or after `from` where `s` holds `b`, or `s.len()` when there is none.
pub open spec fn find_from(s: Seq<u8>, b: u8, from: int) -> int
    decreases s.len() - from,
{
    if from < 0 || from >= s.len() {
        s.len() as int
    } else if s[from] == b {
        from
    } else {
        find_from(s, b, from + 1)
    }
}

/// `find_from` returns the least index that holds `b`.
pub proof fn lemma_find_from(s: Seq<u8>, b: u8, from: int)
    requires
        0 <= from <= s.len(),
    ensures
        from <= find_from(s, b, from) <= s.len(),
        find_from(s, b, from) < s.len() ==> s[find_from(s, b, from)] == b,
        forall|j: int| from <= j < find_from(s, b, from) ==> s[j] != b,
    decreases s.len() - from,
{
    if from < s.len() && s[from] != b {
        lemma_find_from(s, b, from + 1);
    }
}

/// Executable `find_from`.
pub fn find_byte(s: &[u8], b: u8, from: usize) -> (r: usize)
    requires
        from <= s@.len(),
    ensures
        r as int == find_from(s@, b, from as int),
        from <= r <= s@.len(),
{
    let mut i: usize = from;
    while i < s.len()
        invariant
            from <= i <= s@.len(),
            find_from(s@, b, from as int) == find_from(s@, b, i as int),
        decreases s@.len() - i,
    {
        if s[i] == b {
            return i;
        }
        i = i + 1;
    }
    i
}

/// Whether two byte strings hold the same bytes.
pub fn bytes_eq(a: &[u8], b: &[u8]) -> (r: bool)
    ensures
        r == (a@ == b@),
{
    if a.len() != b.len() {
        return false;
    }
    let mut i: usize = 0;
    while i < a.len()
        invariant
            a@.len() == b@.len(),
            i <= a@.len(),
            forall|j: int| 0 <= j < i ==> a@[j] == b@[j],
        decreases a@.len() - i,
    {
        if a[i] != b[i] {
            return false;
        }
        i = i + 1;
    }
    assert(a@ =~= b@);
    true
}

/// A copy of `s[from..to]`.
pub fn copy_range(s: &[u8], from: usize, to: usize) -> (r: Vec<u8>)
    requires
        from <= to <= s@.len(),
    ensures
        r@ == s@.subrange(from as int, to as int),
{
    let mut out: Vec<u8> = Vec::new();
    let mut i: usize = from;
    while i < to
        invariant
            from <= i <= to <= s@.len(),
            out@ == s@.subrange(from as int, i as int),
        decreases to - i,
    {
        out.push(s[i]);
        i = i + 1;
        assert(out@ =~= s@.subrange(from as int, i as int));
    }
    out
}

/// Appends `s` to `out`.
pub fn push_all(out: &mut Vec<u8>, s: &[u8])
    ensures
        final(out)@ == old(out)@ + s@,
{
    let mut i: usize = 0;
    while i < s.len()
        invariant
            i <= s@.len(),
            out@ == old(out)@ + s@.subrange(0, i as int),
        decreases s@.len() - i,
    {
        out.push(s[i]);
        i = i + 1;
        assert(out@ =~= old(out)@ + s@.subrange(0, i as int));
    }
    assert(s@.subrange(0, s@.len() as int) =~= s@);
}

/// Appends `s[from..to]` to `out`.
pub fn push_range(out: &mut Vec<u8>, s: &[u8], from: usize, to: usize)
    requires
        from <= to <= s@.len(),
    ensures
        final(out)@ == old(out)@ + s@.subrange(from as int, to as int),
{
    let mut i: usize = from;
    while i < to
        invariant
            from <= i <= to <= s@.len(),
            out@ == old(out)@ + s@.subrange(from as int, i as int),
        decreases to - i,
    {
        out.push(s[i]);
        i = i + 1;
        assert(out@ =~= old(out)@ + s@.subrange(from as int, i as int));
    }
}

/// Whether `s` begins with `prefix`.
pub open spec fn has_prefix(s: Seq<u8>, prefix: Seq<u8>) -> bool {
    prefix.len() <= s.len() && s.subrange(0, prefix.len() as int) == prefix
}

/// Executable `has_prefix`.
pub fn starts_with(s: &[u8], prefix: &[u8]) -> (r: bool)
    ensures
        r == has_prefix(s@, prefix@),
{
    if prefix.len() > s.len() {
        return false;
    }
    let mut i: usize = 0;
    while i < prefix.len()
        invariant
            prefix@.len() <= s@.len(),
            i <= prefix@.len(),
            forall|j: int| 0 <= j < i ==> s@[j] == prefix@[j],
        decreases prefix@.len() - i,
    {
        if s[i] != prefix[i] {
            assert(s@.subrange(0, prefix@.len() as int)[i as int] == s@[i as int]);
            return false;
        }
        i = i + 1;
    }
    assert(s@.subrange(0, prefix@.len() as int) =~= prefix@);
    true
}

/// The decimal digits of `n`, most significant first, as ASCII.
pub open spec fn dec_digits(n: nat) -> Seq<u8>
    decreases n,
{
    if n < 10 {
        seq![(48 + n) as u8]
    } else {
        dec_digits(n / 10).push((48 + n % 10) as u8)
    }
}

/// Whether `b` is an ASCII decimal digit.
pub open spec fn is_digit(b: u8) -> bool {
    48 <= b <= 57
}

/// Whether `s` is a non-empty run of ASCII decimal digits.
pub open spec fn is_dec(s: Seq<u8>) -> bool {
    s.len() > 0 && forall|i: int| 0 <= i < s.len() ==> is_digit(#[trigger] s[i])
}

/// The number that the decimal digits `s` spell.
pub open spec fn dec_value(s: Seq<u8>) -> nat
    decreases s.len(),
{
    if s.len() == 0 {
        0
    } else {
        (dec_value(s.drop_last()) * 10 + (s.last() - 48)) as nat
    }
}

/// Decimal digits spell the number they were made from.
pub proof fn lemma_dec_round_trip(n: nat)
    ensures
        is_dec(dec_digits(n)),
        dec_value(dec_digits(n)) == n,
    decreases n,
{
    if n < 10 {
        let s = dec_digits(n);
        assert(s.drop_last() =~= Seq::<u8>::empty());
        assert(dec_value(s.drop_last()) == 0);
    } else {
        lemma_dec_round_trip(n / 10);
        let s = dec_digits(n);
        assert(s.drop_last() =~= dec_digits(n / 10));
    }
}

/// The decimal digits of `n`.
pub fn to_decimal(n: usize) -> (r: Vec<u8>)
    ensures
        r@ == dec_digits(n as nat),
    decreases n,
{
    if n < 10 {
        let d: u8 = 48 + n as u8;
        let mut v: Vec<u8> = Vec::new();
        v.push(d);
        assert(v@ =~= dec_digits(n as nat));
        v
    } else {
        let mut v = to_decimal(n / 10);
        let d: u8 = 48 + (n % 10) as u8;
        v.push(d);
        v
    }
}

/// Reads `s` as a decimal number: `Some` exactly when `s` is a non-empty run
/// of digits whose value fits in a `usize`.
pub fn parse_decimal(s: &[u8]) -> (r: Option<usize>)
    ensures
        r matches Some(n) ==> is_dec(s@) && n as nat == dec_value(s@),
        r is None ==> !is_dec(s@) || dec_value(s@) > usize::MAX,
{
    if s.len() == 0 {
        return None;
    }
    let mut acc: usize = 0;
    let mut i: usize = 0;
    while i < s.len()
        invariant
            i <= s@.len(),
            acc as nat == dec_value(s@.subrange(0, i as int)),
            forall|j: int| 0 <= j < i ==> is_digit(#[trigger] s@[j]),
        decreases s@.len() - i,
    {
        let b: u8 = s[i];
        if b < 48 || b > 57 {
            return None;
        }
        let d: usize = (b - 48) as usize;
        proof {
            let t = s@.subrange(0, i as int + 1);
            assert(t.drop_last() =~= s@.subrange(0, i as int));
            assert(t.last() == b);
            assert(dec_value(t) == acc * 10 + d);
            if acc > usize::MAX / 10 || acc * 10 + d > usize::MAX {
                lemma_dec_value_monotone(s@, i as int + 1);
            }
        }
        if acc > usize::MAX / 10 {
            return None;
        }
        let t: usize = acc * 10;
        if t > usize::MAX - d {
            return None;
        }
        acc = t + d;
        i = i + 1;
    }
    assert(s@.subrange(0, s@.len() as int) =~= s@);
    Some(acc)
}

/// The value of a prefix of digits never exceeds the value of the whole.
pub proof fn lemma_dec_value_monotone(s: Seq<u8>, k: int)
    requires
        0 <= k <= s.len(),
        forall|j: int| 0 <= j < k ==> is_digit(#[trigger] s[j]),
    ensures
        is_dec(s) ==> dec_value(s.subrange(0, k)) <= dec_value(s),
    decreases s.len() - k,
{
    if is_dec(s) {
        if k == s.len() {
            assert(s.subrange(0, k) =~= s);
        } else {
            lemma_dec_value_monotone(s, k + 1);
            let t = s.subrange(0, k + 1);
            assert(t.drop_last() =~= s.subrange(0, k));
            assert(is_digit(s[k]));
            assert(t.last() == s[k]);
        }
    }
}

/// The lowercase hex digit for a value below 16.
pub open spec fn hex_digit(n: int) -> u8 {
    if n < 10 {
        (48 + n) as u8
    } else {
        (87 + n) as u8
    }
}

/// Two lowercase hex digits for each byte of `bytes`.
pub open spec fn hex_encode(bytes: Seq<u8>) -> Seq<u8> {
    Seq::new(
        2 * bytes.len(),
        |i: int|
            if i % 2 == 0 {
                hex_digit(bytes[i / 2] as int / 16)
            } else {
                hex_digit(bytes[i / 2] as int % 16)
            },
    )
}

/// The value of a lowercase hex digit, or -1 for any other byte.
pub open spec fn hex_value(c: u8) -> int {
    if 48 <= c <= 57 {
        c - 48
    } else if 97 <= c <= 102 {
        c - 87
    } else {
        -1
    }
}

/// Whether `s` is made of lowercase hex digits only, an even number of them.
pub open spec fn is_hex(s: Seq<u8>) -> bool {
    s.len() % 2 == 0 && forall|i: int| 0 <= i < s.len() ==> hex_value(#[trigger] s[i]) >= 0
}

/// The bytes that the hex digits `s` spell.
pub open spec fn hex_decode(s: Seq<u8>) -> Seq<u8> {
    Seq::new(s.len() / 2, |i: int| (hex_value(s[2 * i]) * 16 + hex_value(s[2 * i + 1])) as u8)
}

/// Decoding undoes encoding.
pub proof fn lemma_hex_round_trip(bytes: Seq<u8>)
    ensures
        is_hex(hex_encode(bytes)),
        hex_decode(hex_encode(bytes)) == bytes,
        hex_encode(bytes).len() == 2 * bytes.len(),
{
    let h = hex_encode(bytes);
    assert forall|i: int| 0 <= i < h.len() implies hex_value(#[trigger] h[i]) >= 0 by {
        let b = bytes[i / 2] as int;
        assert(0 <= b / 16 < 16);
        assert(0 <= b % 16 < 16);
    }
    assert forall|i: int| 0 <= i < bytes.len() implies hex_decode(h)[i] == bytes[i] by {
        let b = bytes[i] as int;
        assert((2 * i) / 2 == i);
        assert((2 * i + 1) / 2 == i);
        assert((2 * i) % 2 == 0);
        assert((2 * i + 1) % 2 == 1);
        assert(hex_value(hex_digit(b / 16)) == b / 16);
        assert(hex_value(hex_digit(b % 16)) == b % 16);
        assert(b == (b / 16) * 16 + b % 16);
    }
    assert(hex_decode(h) =~= bytes);
}

/// Encoding undoes decoding of well-formed hex.
pub proof fn lemma_hex_decode_encode(s: Seq<u8>)
    requires
        is_hex(s),
    ensures
        hex_encode(hex_decode(s)) == s,
{
    let d = hex_decode(s);
    let e = hex_encode(d);
    assert(e.len() == s.len());
    assert forall|i: int| 0 <= i < s.len() implies e[i] == s[i] by {
        let k = i / 2;
        let hi = hex_value(s[2 * k]);
        let lo = hex_value(s[2 * k + 1]);
        assert(0 <= hi < 16 && 0 <= lo < 16);
        assert(d[k] as int == hi * 16 + lo);
        assert((hi * 16 + lo) / 16 == hi);
        assert((hi * 16 + lo) % 16 == lo);
        if i % 2 == 0 {
            assert(i == 2 * k);
        } else {
            assert(i == 2 * k + 1);
        }
    }
    assert(e =~= s);
}

fn hex_digit_of(n: u8) -> (r: u8)
    requires
        n < 16,
    ensures
        r == hex_digit(n as int),
{
    if n < 10 {
        48 + n
    } else {
        87 + n
    }
}

/// The lowercase hex rendering of `bytes`.
pub fn to_hex(bytes: &[u8]) -> (r: Vec<u8>)
    ensures
        r@ == hex_encode(bytes@),
{
    let mut out: Vec<u8> = Vec::new();
    let mut i: usize = 0;
    while i < bytes.len()
        invariant
            i <= bytes@.len(),
            out@.len() == 2 * i,
            forall|j: int| 0 <= j < 2 * i ==> out@[j] == hex_encode(bytes@)[j],
        decreases bytes@.len() - i,
    {
        let b: u8 = bytes[i];
        out.push(hex_digit_of(b / 16));
        out.push(hex_digit_of(b % 16));
        proof {
            assert((2 * i) / 2 == i && (2 * i) % 2 == 0);
            assert((2 * i + 1) / 2 == i && (2 * i + 1) % 2 == 1);
        }
        i = i + 1;
    }
    assert(out@ =~= hex_encode(bytes@));
    out
}

fn hex_value_of(c: u8) -> (r: Option<u8>)
    ensures
        r matches Some(v) ==> v as int == hex_value(c) && v < 16,
        r is None ==> hex_value(c) < 0,
{
    if 48 <= c && c <= 57 {
        Some(c - 48)
    } else if 97 <= c && c <= 102 {
        Some(c - 87)
    } else {
        None
    }
}

/// Reads lowercase hex digits into bytes: `Some` exactly when `s` is
/// well-formed hex.
pub fn from_hex(s: &[u8]) -> (r: Option<Vec<u8>>)
    ensures
        r matches Some(v) ==> is_hex(s@) && v@ == hex_decode(s@),
        r is None ==> !is_hex(s@),
{
    if s.len() % 2 != 0 {
        return None;
    }
    let n: usize = s.len() / 2;
    let mut out: Vec<u8> = Vec::new();
    let mut i: usize = 0;
    while i < n
        invariant
            s@.len() == 2 * n,
            s@.len() <= usize::MAX,
            i <= n,
            out@.len() == i,
            forall|j: int| 0 <= j < 2 * i ==> hex_value(#[trigger] s@[j]) >= 0,
            forall|j: int| 0 <= j < i ==> out@[j] == hex_decode(s@)[j],
        decreases n - i,
    {
        let hi = match hex_value_of(s[2 * i]) {
            Some(v) => v,
            None => {
                return None;
            },
        };
        let lo = match hex_value_of(s[2 * i + 1]) {
            Some(v) => v,
            None => {
                return None;
            },
        };
        out.push(hi * 16 + lo);
        i = i + 1;
    }
    assert(out@ =~= hex_decode(s@));
    Some(out)
}

/// A header line: key, space, value, line feed.
#[verifier::opaque]
pub open spec fn line(key: Seq<u8>, value: Seq<u8>) -> Seq<u8> {
    key + seq![32u8] + value + seq![10u8]
}

/// Reads at `pos` a header line with the given key: its value and the
/// position after its line feed. `None` when the bytes at `pos` do not start
/// with the key and a space, or no line feed follows.
pub open spec fn field_at(bytes: Seq<u8>, pos: int, key: Seq<u8>) -> Option<(Seq<u8>, int)> {
    let start = pos + key.len() + 1;
    let nl = find_from(bytes, 10, start);
    if 0 <= pos && start <= bytes.len() && bytes.subrange(pos, start) == key + seq![32u8] && nl
        < bytes.len() {
        Some((bytes.subrange(start, nl), nl + 1))
    } else {
        None
    }
}

/// A line that was read is what stands between the two positions.
pub proof fn lemma_field_sound(bytes: Seq<u8>, pos: int, key: Seq<u8>)
    requires
        field_at(bytes, pos, key) is Some,
    ensures
        ({
            let (value, next) = field_at(bytes, pos, key).unwrap();
            &&& 0 <= pos < next <= bytes.len()
            &&& bytes.subrange(pos, next) == line(key, value)
            &&& lacks(value, 10)
        }),
{
    reveal(line);
    let start = pos + key.len() + 1;
    lemma_find_from(bytes, 10, start);
    let (value, next) = field_at(bytes, pos, key).unwrap();
    assert(bytes.subrange(pos, next) =~= bytes.subrange(pos, start) + value + seq![10u8]);
    assert(bytes.subrange(pos, next) =~= line(key, value));
}

/// A line written after `prefix` is read back at `prefix.len()`.
pub proof fn lemma_field_complete(prefix: Seq<u8>, key: Seq<u8>, value: Seq<u8>, rest: Seq<u8>)
    requires
        lacks(value, 10),
    ensures
        field_at(prefix + line(key, value) + rest, prefix.len() as int, key) == Some(
            (value, (prefix + line(key, value)).len() as int),
        ),
{
    reveal(line);
    let bytes = prefix + line(key, value) + rest;
    let pos = prefix.len() as int;
    let start = pos + key.len() + 1;
    let nl = start + value.len();
    assert(bytes.subrange(pos, start) =~= key + seq![32u8]);
    assert forall|j: int| start <= j < nl implies bytes[j] != 10 by {
        assert(bytes[j] == value[j - start]);
    }
    assert(bytes[nl] == 10);
    lemma_find_unique(bytes, 10, start, nl);
    assert(bytes.subrange(start, nl) =~= value);
}

/// A line with another key is not read where a line stands whose key
/// differs from it in the first byte.
pub proof fn lemma_field_other(
    prefix: Seq<u8>,
    key: Seq<u8>,
    value: Seq<u8>,
    rest: Seq<u8>,
    other: Seq<u8>,
)
    requires
        key.len() > 0,
        other.len() > 0,
        key[0] != other[0],
    ensures
        field_at(prefix + line(key, value) + rest, prefix.len() as int, other) is None,
{
    reveal(line);
    let bytes = prefix + line(key, value) + rest;
    let pos = prefix.len() as int;
    let start = pos + other.len() + 1;
    if start <= bytes.len() {
        assert(bytes.subrange(pos, start)[0] == bytes[pos]);
        assert(bytes[pos] == key[0]);
        assert((other + seq![32u8])[0] == other[0]);
    }
}

/// Executable `field_at`.
pub fn read_field(bytes: &[u8], pos: usize, key: &[u8]) -> (r: Option<(Vec<u8>, usize)>)
    ensures
        match r {
            Some((value, next)) => field_at(bytes@, pos as int, key@) == Some(
                (value@, next as int),
            ),
            None => field_at(bytes@, pos as int, key@) is None,
        },
{
    if pos > bytes.len() || key.len() >= bytes.len() - pos {
        return None;
    }
    let start: usize = pos + key.len() + 1;
    let head = copy_range(bytes, pos, start);
    let mut expect = copy_range(key, 0, key.len());
    expect.push(32u8);
    assert(expect@ =~= key@ + seq![32u8]);
    if !bytes_eq(head.as_slice(), expect.as_slice()) {
        return None;
    }
    let nl = find_byte(bytes, 10u8, start);
    if nl >= bytes.len() {
        return None;
    }
    Some((copy_range(bytes, start, nl), nl + 1))
}

/// The byte strings held by a sequence of vectors.
pub open spec fn seqs(v: Seq<Vec<u8>>) -> Seq<Seq<u8>> {
    Seq::new(v.len(), |i: int| v[i]@)
}

/// A copy of a list of byte strings.
pub fn clone_list(v: &Vec<Vec<u8>>) -> (r: Vec<Vec<u8>>)
    ensures
        seqs(r@) == seqs(v@),
{
    let mut out: Vec<Vec<u8>> = Vec::new();
    let mut i: usize = 0;
    while i < v.len()
        invariant
            i <= v@.len(),
            out@.len() == i,
            forall|j: int| 0 <= j < i ==> out@[j]@ == v@[j]@,
        decreases v@.len() - i,
    {
        out.push(v[i].clone());
        i = i + 1;
    }
    assert(seqs(out@) =~= seqs(v@));
    out
}

/// Whether `list` holds `item`.
pub fn list_contains(list: &Vec<Vec<u8>>, item: &[u8]) -> (r: bool)
    ensures
        r == seqs(list@).contains(item@),
{
    let mut i: usize = 0;
    while i < list.len()
        invariant
            i <= list@.len(),
            forall|j: int| 0 <= j < i ==> seqs(list@)[j] != item@,
        decreases list@.len() - i,
    {
        if bytes_eq(list[i].as_slice(), item) {
            assert(seqs(list@)[i as int] == item@);
            return true;
        }
        i = i + 1;
    }
    false
}

/// Appends the header line `key value` to `out`.
pub fn push_line(out: &mut Vec<u8>, key: &[u8], value: &[u8])
    ensures
        final(out)@ == old(out)@ + line(key@, value@),
{
    reveal(line);
    push_all(out, key);
    out.push(32u8);
    push_all(out, value);
    out.push(10u8);
    assert(out@ =~= old(out)@ + line(key@, value@));
}

/// The pieces of `s` between occurrences of `sep`, from index `from` on:
/// one more piece than there are separators.
pub open spec fn split_from(s: Seq<u8>, sep: u8, from: int) -> Seq<Seq<u8>>
    decreases s.len() - from,
{
    let at = find_from(s, sep, from);
    if from < 0 || from > s.len() {
        Seq::empty()
    } else if at >= s.len() || at < from {
        seq![s.subrange(from, s.len() as int)]
    } else {
        seq![s.subrange(from, at)] + split_from(s, sep, at + 1)
    }
}

/// The pieces of `s` between occurrences of `sep`.
pub open spec fn split_on(s: Seq<u8>, sep: u8) -> Seq<Seq<u8>> {
    split_from(s, sep, 0)
}

/// Splits `s` at each occurrence of `sep`.
pub fn split(s: &[u8], sep: u8) -> (r: Vec<Vec<u8>>)
    ensures
        seqs(r@) == split_on(s@, sep),
        r@.len() >= 1,
{
    let mut out: Vec<Vec<u8>> = Vec::new();
    let mut from: usize = 0;
    proof {
        assert(seqs(out@) + split_from(s@, sep, 0) =~= split_from(s@, sep, 0));
    }
    loop
        invariant_except_break
            from <= s@.len(),
            seqs(out@) + split_from(s@, sep, from as int) == split_on(s@, sep),
        ensures
            seqs(out@) == split_on(s@, sep),
            out@.len() >= 1,
        decreases s@.len() - from,
    {
        let at = find_byte(s, sep, from);
        let ghost before = seqs(out@);
        if at >= s.len() {
            out.push(copy_range(s, from, s.len()));
            assert(seqs(out@) =~= before + seq![s@.subrange(from as int, s@.len() as int)]);
            break ;
        }
        out.push(copy_range(s, from, at));
        proof {
            assert(seqs(out@) =~= before + seq![s@.subrange(from as int, at as int)]);
            assert(seqs(out@) + split_from(s@, sep, at + 1) =~= before + split_from(
                s@,
                sep,
                from as int,
            ));
        }
        from = at + 1;
    }
    out
}

/// A line without the carriage return that ended it, if one did.
pub open spec fn without_cr(line: Seq<u8>) -> Seq<u8> {
    if line.len() > 0 && line.last() == 13 {
        line.drop_last()
    } else {
        line
    }
}

/// The lines of `s` from index `from` on. A line ends at a line feed, or at
/// a carriage return followed by one; the end of the last line may be missing.
pub open spec fn lines_from(s: Seq<u8>, from: int) -> Seq<Seq<u8>>
    decreases s.len() - from,
{
    let at = find_from(s, 10, from);
    if from < 0 || from >= s.len() {
        Seq::empty()
    } else if at >= s.len() || at < from {
        seq![s.subrange(from, s.len() as int)]
    } else {
        seq![without_cr(s.subrange(from, at))] + lines_from(s, at + 1)
    }
}

/// The lines of `s`.
pub open spec fn lines_of(s: Seq<u8>) -> Seq<Seq<u8>> {
    lines_from(s, 0)
}

/// Splits `s` into its lines.
pub fn lines(s: &[u8]) -> (r: Vec<Vec<u8>>)
    ensures
        seqs(r@) == lines_of(s@),
{
    let mut out: Vec<Vec<u8>> = Vec::new();
    let mut from: usize = 0;
    proof {
        assert(seqs(out@) + lines_from(s@, 0) =~= lines_from(s@, 0));
    }
    while from < s.len()
        invariant
            from <= s@.len(),
            seqs(out@) + lines_from(s@, from as int) == lines_of(s@),
        decreases s@.len() - from,
    {
        let at = find_byte(s, 10u8, from);
        let ghost before = seqs(out@);
        if at >= s.len() {
            out.push(copy_range(s, from, s.len()));
            proof {
                assert(seqs(out@) =~= before + seq![s@.subrange(from as int, s@.len() as int)]);
                assert(lines_from(s@, s@.len() as int) =~= Seq::<Seq<u8>>::empty());
                assert(seqs(out@) + lines_from(s@, s@.len() as int) =~= before + lines_from(
                    s@,
                    from as int,
                ));
            }
            from = s.len();
        } else {
            let end: usize = if at > from && s[at - 1] == 13u8 {
                at - 1
            } else {
                at
            };
            out.push(copy_range(s, from, end));
            proof {
                let raw = s@.subrange(from as int, at as int);
                assert(s@.subrange(from as int, end as int) =~= without_cr(raw)) by {
                    if at > from {
                        assert(raw.last() == s@[at - 1]);
                    }
                }
                assert(seqs(out@) =~= before + seq![without_cr(raw)]);
                assert(seqs(out@) + lines_from(s@, at + 1) =~= before + lines_from(
                    s@,
                    from as int,
                ));
            }
            from = at + 1;
        }
    }
    proof {
        assert(lines_from(s@, from as int) =~= Seq::<Seq<u8>>::empty());
        assert(seqs(out@) + Seq::<Seq<u8>>::empty() =~= seqs(out@));
    }
    out
}

/// The four lowercase hex digits of `n`.
pub open spec fn hex4(n: int) -> Seq<u8> {
    seq![
        hex_digit((n / 0x1000) % 16),
        hex_digit((n / 0x100) % 16),
        hex_digit((n / 0x10) % 16),
        hex_digit(n % 16),
    ]
}

/// The value of a hex digit of either case, or -1 for any other byte.
pub open spec fn hex_value_any(c: u8) -> int {
    if 65 <= c <= 70 {
        c - 55
    } else {
        hex_value(c)
    }
}

/// The number that hex digits of either case spell, or -1 when one of the
/// bytes is no hex digit.
pub open spec fn hex_number(s: Seq<u8>) -> int
    decreases s.len(),
{
    if s.len() == 0 {
        0
    } else if hex_number(s.drop_last()) < 0 || hex_value_any(s.last()) < 0 {
        -1
    } else {
        hex_number(s.drop_last()) * 16 + hex_value_any(s.last())
    }
}

/// Appends the four hex digits of `n`.
pub fn push_hex4(out: &mut Vec<u8>, n: usize)
    requires
        n < 0x10000,
    ensures
        final(out)@ == old(out)@ + hex4(n as int),
{
    out.push(hex_digit_of(((n / 0x1000) % 16) as u8));
    out.push(hex_digit_of(((n / 0x100) % 16) as u8));
    out.push(hex_digit_of(((n / 0x10) % 16) as u8));
    out.push(hex_digit_of((n % 16) as u8));
    assert(out@ =~= old(out)@ + hex4(n as int));
}

/// 16 to the power `n`, for `n` up to 7.
pub open spec fn pow16(n: int) -> int {
    if n <= 0 {
        1
    } else if n == 1 {
        0x10
    } else if n == 2 {
        0x100
    } else if n == 3 {
        0x1000
    } else if n == 4 {
        0x1_0000
    } else if n == 5 {
        0x10_0000
    } else if n == 6 {
        0x100_0000
    } else {
        0x1000_0000
    }
}

/// Reads up to seven hex digits of either case as a number; `None` when one
/// of the bytes is no hex digit or there are more than seven.
pub fn parse_hex(s: &[u8]) -> (r: Option<usize>)
    ensures
        match r {
            Some(n) => hex_number(s@) == n && s@.len() <= 7,
            None => hex_number(s@) < 0 || s@.len() > 7,
        },
{
    if s.len() > 7 {
        return None;
    }
    let mut acc: usize = 0;
    let mut i: usize = 0;
    let mut bound: usize = 1;
    assert(s@.subrange(0, 0) =~= Seq::<u8>::empty());
    while i < s.len()
        invariant
            i <= s@.len() <= 7,
            acc == hex_number(s@.subrange(0, i as int)),
            acc < bound,
            bound == pow16(i as int),
        decreases s@.len() - i,
    {
        let c: u8 = s[i];
        let v: usize = if 48 <= c && c <= 57 {
            (c - 48) as usize
        } else if 97 <= c && c <= 102 {
            (c - 87) as usize
        } else if 65 <= c && c <= 70 {
            (c - 55) as usize
        } else {
            proof {
                lemma_hex_number_bad(s@, i as int);
            }
            return None;
        };
        proof {
            let t = s@.subrange(0, i as int + 1);
            assert(t.drop_last() =~= s@.subrange(0, i as int));
            assert(t.last() == c);
        }
        acc = acc * 16 + v;
        bound = bound * 16;
        i = i + 1;
    }
    assert(s@.subrange(0, s@.len() as int) =~= s@);
    Some(acc)
}

/// A byte that is no hex digit spoils the number.
pub proof fn lemma_hex_number_bad(s: Seq<u8>, i: int)
    requires
        0 <= i < s.len(),
        hex_value_any(s[i]) < 0,
    ensures
        hex_number(s) < 0,
    decreases s.len(),
{
    if i < s.len() - 1 {
        assert(s.drop_last()[i] == s[i]);
        lemma_hex_number_bad(s.drop_last(), i);
    }
}

/// A line that stands at `from` and is ended by a line feed is the first
/// of the lines from `from` on.
pub proof fn lemma_lines_step(s: Seq<u8>, from: int, body: Seq<u8>)
    requires
        0 <= from,
        from + body.len() < s.len(),
        s.subrange(from, from + body.len()) == body,
        s[from + body.len()] == 10,
        lacks(body, 10),
        body.len() == 0 || body.last() != 13,
    ensures
        lines_from(s, from) == seq![body] + lines_from(s, from + body.len() + 1),
{
    let at = from + body.len();
    assert forall|j: int| from <= j < at implies s[j] != 10 by {
        assert(s[j] == body[j - from]);
    }
    lemma_find_unique(s, 10, from, at);
}

/// The pieces of a text that holds the separator exactly once.
pub proof fn lemma_split_two(a: Seq<u8>, sep: u8, b: Seq<u8>)
    requires
        lacks(a, sep),
        lacks(b, sep),
    ensures
        split_on(a + seq![sep] + b, sep) == seq![a, b],
{
    let s = a + seq![sep] + b;
    let at = a.len() as int;
    assert forall|j: int| 0 <= j < at implies s[j] != sep by {
        assert(s[j] == a[j]);
    }
    lemma_find_unique(s, sep, 0, at);
    assert forall|j: int| at + 1 <= j < s.len() implies s[j] != sep by {
        assert(s[j] == b[j - at - 1]);
    }
    lemma_find_unique(s, sep, at + 1, s.len() as int);
    assert(s.subrange(0, at) =~= a);
    assert(s.subrange(at + 1, s.len() as int) =~= b);
    assert(split_from(s, sep, at + 1) =~= seq![b]);
    assert(split_on(s, sep) =~= seq![a, b]);
}

/// 10 to the power `n`, for `n` up to 19.
pub open spec fn pow10(n: int) -> int
    decreases n,
{
    if n <= 0 {
        1
    } else {
        10 * pow10(n - 1)
    }
}

/// A number of `n` digits is below 10 to the power `n`; with at most 18
/// digits it fits in 64 bits.
pub proof fn lemma_dec_bound(s: Seq<u8>)
    requires
        is_dec(s),
    ensures
        dec_value(s) < pow10(s.len() as int),
        s.len() <= 18 ==> dec_value(s) < 1_000_000_000_000_000_000,
    decreases s.len(),
{
    if s.len() > 1 {
        assert(is_dec(s.drop_last())) by {
            assert forall|i: int| 0 <= i < s.drop_last().len() implies is_digit(
                #[trigger] s.drop_last()[i],
            ) by {
                assert(s.drop_last()[i] == s[i]);
            }
        }
        lemma_dec_bound(s.drop_last());
    } else {
        assert(s.drop_last() =~= Seq::<u8>::empty());
        assert(dec_value(s.drop_last()) == 0);
    }
    assert(is_digit(s[s.len() - 1]));
    if s.len() <= 18 {
        lemma_pow10_mono(s.len() as int, 18);
        assert(pow10(18) == 1_000_000_000_000_000_000) by {
            reveal_with_fuel(pow10, 20);
        }
    }
}

proof fn lemma_pow10_mono(a: int, b: int)
    requires
        0 <= a <= b,
    ensures
        pow10(a) <= pow10(b),
        pow10(a) >= 1,
    decreases b,
{
    if a < b {
        lemma_pow10_mono(a, b - 1);
    } else if a > 0 {
        lemma_pow10_mono(a - 1, a - 1);
    }
}

/// Reads `s` as a decimal number: `Some` exactly when `s` is a non-empty run
/// of digits whose value fits in 64 bits.
pub fn parse_u64(s: &[u8]) -> (r: Option<u64>)
    ensures
        r matches Some(n) ==> is_dec(s@) && n as nat == dec_value(s@),
        r is None ==> !is_dec(s@) || dec_value(s@) > u64::MAX,
{
    if s.len() == 0 {
        return None;
    }
    let mut acc: u64 = 0;
    let mut i: usize = 0;
    while i < s.len()
        invariant
            i <= s@.len(),
            acc as nat == dec_value(s@.subrange(0, i as int)),
            forall|j: int| 0 <= j < i ==> is_digit(#[trigger] s@[j]),
        decreases s@.len() - i,
    {
        let b: u8 = s[i];
        if b < 48 || b > 57 {
            return None;
        }
        let d: u64 = (b - 48) as u64;
        proof {
            let t = s@.subrange(0, i as int + 1);
            assert(t.drop_last() =~= s@.subrange(0, i as int));
            assert(t.last() == b);
            assert(dec_value(t) == acc * 10 + d);
            if acc > u64::MAX / 10 || acc * 10 + d > u64::MAX {
                lemma_dec_value_monotone(s@, i as int + 1);
            }
        }
        if acc > u64::MAX / 10 {
            return None;
        }
        let t: u64 = acc * 10;
        if t > u64::MAX - d {
            return None;
        }
        acc = t + d;
        i = i + 1;
    }
    assert(s@.subrange(0, s@.len() as int) =~= s@);
    Some(acc)
}

/// Whether `pat` stands in `s` at index `i`.
pub open spec fn occurs_at(s: Seq<u8>, pat: Seq<u8>, i: int) -> bool {
    0 <= i && i + pat.len() <= s.len() && s.subrange(i, i + pat.len()) == pat
}

/// Whether `pat` stands somewhere in `s`.
pub open spec fn contains_text(s: Seq<u8>, pat: Seq<u8>) -> bool {
    exists|i: int| occurs_at(s, pat, i)
}

/// Executable `occurs_at`.
pub fn stands_at(s: &[u8], pat: &[u8], i: usize) -> (r: bool)
    ensures
        r == occurs_at(s@, pat@, i as int),
{
    if i > s.len() || pat.len() > s.len() - i {
        return false;
    }
    let mut k: usize = 0;
    while k < pat.len()
        invariant
            k <= pat@.len(),
            i + pat@.len() <= s@.len() <= usize::MAX,
            forall|j: int| 0 <= j < k ==> s@[i + j] == pat@[j],
        decreases pat@.len() - k,
    {
        if s[i + k] != pat[k] {
            assert(s@.subrange(i as int, i + pat@.len())[k as int] != pat@[k as int]);
            return false;
        }
        k = k + 1;
    }
    assert(s@.subrange(i as int, i + pat@.len()) =~= pat@);
    true
}

/// Executable `contains_text`.
pub fn has_text(s: &[u8], pat: &[u8]) -> (r: bool)
    ensures
        r == contains_text(s@, pat@),
{
    let mut i: usize = 0;
    while i < s.len()
        invariant
            i <= s@.len(),
            forall|j: int| 0 <= j < i ==> !occurs_at(s@, pat@, j),
        decreases s@.len() - i,
    {
        if stands_at(s, pat, i) {
            return true;
        }
        i = i + 1;
    }
    stands_at(s, pat, i)
}

/// `s` from index `from` on, with `by` in place of each occurrence of
/// `pat`, the occurrences taken from the left and not overlapping. An
/// empty `pat` occurs nowhere.
pub open spec fn replaced_from(s: Seq<u8>, pat: Seq<u8>, by: Seq<u8>, from: int) -> Seq<u8>
    decreases s.len() - from,
{
    if from < 0 || from >= s.len() {
        Seq::empty()
    } else if pat.len() > 0 && occurs_at(s, pat, from) {
        by + replaced_from(s, pat, by, from + pat.len())
    } else {
        seq![s[from]] + replaced_from(s, pat, by, from + 1)
    }
}

/// `s` with `by` in place of each occurrence of `pat`.
pub open spec fn replaced(s: Seq<u8>, pat: Seq<u8>, by: Seq<u8>) -> Seq<u8> {
    replaced_from(s, pat, by, 0)
}

/// Executable `replaced`.
pub fn replace_text(s: &[u8], pat: &[u8], by: &[u8]) -> (r: Vec<u8>)
    ensures
        r@ == replaced(s@, pat@, by@),
{
    let mut out: Vec<u8> = Vec::new();
    let mut i: usize = 0;
    assert(out@ + replaced_from(s@, pat@, by@, 0) =~= replaced(s@, pat@, by@));
    while i < s.len()
        invariant
            i <= s@.len(),
            out@ + replaced_from(s@, pat@, by@, i as int) == replaced(s@, pat@, by@),
        decreases s@.len() - i,
    {
        let ghost before = out@;
        if pat.len() > 0 && stands_at(s, pat, i) {
            push_all(&mut out, by);
            assert(out@ + replaced_from(s@, pat@, by@, i + pat@.len()) =~= before + (by@
                + replaced_from(s@, pat@, by@, i + pat@.len())));
            i = i + pat.len();
        } else {
            out.push(s[i]);
            assert(out@ + replaced_from(s@, pat@, by@, i + 1) =~= before + (seq![s@[i as int]]
                + replaced_from(s@, pat@, by@, i + 1)));
            i = i + 1;
        }
    }
    assert(out@ + Seq::<u8>::empty() =~= out@);
    out
}

} // verus!
