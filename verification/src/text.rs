//! Byte-level text helpers shared by the parser, the catalog and the
//! executor logic: decimal rendering and parsing, splitting and joining.

use vstd::prelude::*;

verus! {

/// Decimal digits of `n`, most significant first.
pub open spec fn spec_dec(n: nat) -> Seq<u8>
    decreases n,
{
    if n < 10 {
        seq![(48 + n) as u8]
    } else {
        spec_dec(n / 10) + seq![(48 + n % 10) as u8]
    }
}

/// Render `n` in decimal.
pub fn u64_to_dec(n: u64) -> (r: Vec<u8>)
    ensures
        r@ == spec_dec(n as nat),
    decreases n,
{
    if n < 10 {
        let mut v: Vec<u8> = Vec::new();
        v.push((48 + n) as u8);
        assert(v@ =~= spec_dec(n as nat));
        v
    } else {
        let mut v = u64_to_dec(n / 10);
        v.push((48 + n % 10) as u8);
        assert(v@ =~= spec_dec(n as nat));
        v
    }
}

/// Is `b` an ASCII decimal digit?
pub open spec fn is_digit(b: u8) -> bool {
    48 <= b <= 57
}

/// Every byte of `s` is a decimal digit.
pub open spec fn is_digits(s: Seq<u8>) -> bool {
    forall|i: int| 0 <= i < s.len() ==> is_digit(#[trigger] s[i])
}

/// Numeric value of a string of decimal digits, most significant first.
pub open spec fn spec_val(s: Seq<u8>) -> nat
    decreases s.len(),
{
    if s.len() == 0 {
        0
    } else {
        (spec_val(s.drop_last()) * 10 + (s.last() - 48)) as nat
    }
}

/// The decimal rendering of `n` is made of digits, has no leading zero
/// (except for `0` itself), and parses back to `n`.
pub proof fn lemma_val_dec(n: nat)
    ensures
        spec_dec(n).len() >= 1,
        is_digits(spec_dec(n)),
        spec_val(spec_dec(n)) == n,
        n >= 10 ==> spec_dec(n).len() >= 2,
        spec_dec(n)[0] == 48 ==> n == 0,
    decreases n,
{
    if n < 10 {
        let s = spec_dec(n);
        assert(s =~= seq![(48 + n) as u8]);
        assert(s.last() == (48 + n) as u8);
        assert(s.drop_last() =~= Seq::<u8>::empty());
        assert(spec_val(s.drop_last()) == 0);
        assert(spec_val(s) == (spec_val(s.drop_last()) * 10 + (s.last() - 48)) as nat);
        assert(spec_val(s) == n);
    } else {
        lemma_val_dec(n / 10);
        let s = spec_dec(n);
        assert(s.drop_last() =~= spec_dec(n / 10));
        assert(s.last() == (48 + n % 10) as u8);
        assert(spec_val(s) == ((n / 10) * 10 + n % 10) as nat);
        assert((n / 10) * 10 + n % 10 == n) by (nonlinear_arith);
        assert(spec_dec(n)[0] == spec_dec(n / 10)[0]);
    }
}

/// Distinct numbers have distinct decimal renderings.
pub proof fn lemma_dec_injective(a: nat, b: nat)
    ensures
        spec_dec(a) == spec_dec(b) ==> a == b,
{
    if spec_dec(a) == spec_dec(b) {
        lemma_val_dec(a);
        lemma_val_dec(b);
    }
}

/// Index of the first occurrence of `b` in `s` at or after `from`,
/// or `s.len()` if there is none.
pub open spec fn spec_find_at(s: Seq<u8>, b: u8, from: int) -> int
    decreases s.len() - from,
{
    if from < 0 || from >= s.len() {
        s.len() as int
    } else if s[from] == b {
        from
    } else {
        spec_find_at(s, b, from + 1)
    }
}

/// What `spec_find_at` returns: the first occurrence, or the length.
pub proof fn lemma_find_at(s: Seq<u8>, b: u8, from: int)
    requires
        0 <= from <= s.len(),
    ensures
        from <= spec_find_at(s, b, from) <= s.len(),
        spec_find_at(s, b, from) < s.len() ==> s[spec_find_at(s, b, from)] == b,
        forall|j: int| from <= j < spec_find_at(s, b, from) ==> s[j] != b,
    decreases s.len() - from,
{
    if from < s.len() && s[from] != b {
        lemma_find_at(s, b, from + 1);
    }
}

/// Finding in a suffix is finding in the whole, shifted.
pub proof fn lemma_find_at_shift(s: Seq<u8>, b: u8, base: int, from: int)
    requires
        0 <= base <= from <= s.len(),
    ensures
        spec_find_at(s, b, from) == base + spec_find_at(
            s.subrange(base, s.len() as int),
            b,
            from - base,
        ),
    decreases s.len() - from,
{
    let t = s.subrange(base, s.len() as int);
    if from >= s.len() {
    } else if s[from] == b {
    } else {
        lemma_find_at_shift(s, b, base, from + 1);
    }
}

/// First occurrence of `b` in `v` at or after `from`, or `v.len()`.
pub fn find_at(v: &Vec<u8>, b: u8, from: usize) -> (r: usize)
    requires
        from <= v@.len(),
    ensures
        r == spec_find_at(v@, b, from as int),
{
    let mut i: usize = from;
    while i < v.len()
        invariant
            from <= i <= v@.len(),
            spec_find_at(v@, b, from as int) == spec_find_at(v@, b, i as int),
        decreases v@.len() - i,
    {
        if v[i] == b {
            return i;
        }
        i = i + 1;
    }
    v.len()
}

/// Copy of `v[from..to]`.
pub fn subvec(v: &Vec<u8>, from: usize, to: usize) -> (r: Vec<u8>)
    requires
        from <= to <= v@.len(),
    ensures
        r@ == v@.subrange(from as int, to as int),
{
    let mut r: Vec<u8> = Vec::new();
    let mut i: usize = from;
    while i < to
        invariant
            from <= i <= to <= v@.len(),
            r@ == v@.subrange(from as int, i as int),
        decreases to - i,
    {
        r.push(v[i]);
        assert(r@ =~= v@.subrange(from as int, i + 1));
        i = i + 1;
    }
    r
}

/// Byte-for-byte equality of two vectors.
pub fn eq_bytes(a: &Vec<u8>, b: &Vec<u8>) -> (r: bool)
    ensures
        r == (a@ == b@),
{
    if a.len() != b.len() {
        assert(a@ != b@);
        return false;
    }
    let mut i: usize = 0;
    while i < a.len()
        invariant
            i <= a@.len() == b@.len(),
            forall|j: int| 0 <= j < i ==> a@[j] == b@[j],
        decreases a@.len() - i,
    {
        if a[i] != b[i] {
            assert(a@ != b@);
            return false;
        }
        i = i + 1;
    }
    assert(a@ =~= b@);
    true
}

/// Pieces of `s` between occurrences of `sep`, from position `from` on.
pub open spec fn spec_split_from(s: Seq<u8>, sep: u8, from: int) -> Seq<Seq<u8>>
    recommends
        0 <= from <= s.len(),
    decreases s.len() - from,
{
    let i = spec_find_at(s, sep, from);
    let cut = if i >= from { i } else { from };
    if from < 0 || cut >= s.len() {
        seq![s.subrange(if 0 <= from <= s.len() { from } else { 0 }, s.len() as int)]
    } else {
        seq![s.subrange(from, cut)] + spec_split_from(s, sep, cut + 1)
    }
}

/// Pieces of `s` between occurrences of `sep`; never empty as a list.
pub open spec fn spec_split(s: Seq<u8>, sep: u8) -> Seq<Seq<u8>> {
    spec_split_from(s, sep, 0)
}

/// Splitting from `from` equals splitting the suffix that starts at `base`.
pub proof fn lemma_split_shift(s: Seq<u8>, sep: u8, base: int, from: int)
    requires
        0 <= base <= from <= s.len(),
    ensures
        spec_split_from(s, sep, from) == spec_split_from(
            s.subrange(base, s.len() as int),
            sep,
            from - base,
        ),
    decreases s.len() - from,
{
    let t = s.subrange(base, s.len() as int);
    lemma_find_at(s, sep, from);
    lemma_find_at_shift(s, sep, base, from);
    let i = spec_find_at(s, sep, from);
    if i >= s.len() {
        assert(s.subrange(from, s.len() as int) =~= t.subrange(from - base, t.len() as int));
        assert(spec_split_from(s, sep, from) =~= spec_split_from(t, sep, from - base));
    } else {
        lemma_split_shift(s, sep, base, i + 1);
        assert(s.subrange(from, i) =~= t.subrange(from - base, i - base));
        assert(spec_split_from(s, sep, from) =~= spec_split_from(t, sep, from - base));
    }
}

/// Append a copy of `part` to `out`.
pub fn extend_bytes(out: &mut Vec<u8>, part: &Vec<u8>)
    ensures
        final(out)@ == old(out)@ + part@,
{
    let mut j: usize = 0;
    while j < part.len()
        invariant
            j <= part@.len(),
            out@ == old(out)@ + part@.subrange(0, j as int),
        decreases part@.len() - j,
    {
        out.push(part[j]);
        assert(out@ =~= old(out)@ + part@.subrange(0, j + 1));
        j = j + 1;
    }
    assert(out@ =~= old(out)@ + part@);
}

/// Split `v` on `sep`; the result has one piece more than separators.
pub fn split_bytes(v: &Vec<u8>, sep: u8) -> (r: Vec<Vec<u8>>)
    ensures
        r.deep_view() == spec_split(v@, sep),
{
    let mut r: Vec<Vec<u8>> = Vec::new();
    let mut start: usize = 0;
    loop
        invariant_except_break
            spec_split(v@, sep) == r.deep_view() + spec_split_from(v@, sep, start as int),
        invariant
            start <= v@.len(),
        ensures
            r.deep_view() == spec_split(v@, sep),
        decreases v@.len() - start,
    {
        proof {
            lemma_find_at(v@, sep, start as int);
        }
        let i = find_at(v, sep, start);
        if i == v.len() {
            let ghost prev = r.deep_view();
            let tail = subvec(v, start, v.len());
            r.push(tail);
            assert(r.deep_view() =~~= prev + seq![tail@]);
            assert(spec_split_from(v@, sep, start as int) =~~= seq![
                v@.subrange(start as int, v@.len() as int),
            ]);
            assert(r.deep_view() =~~= spec_split(v@, sep));
            break;
        } else {
            let ghost prev = r.deep_view();
            let piece = subvec(v, start, i);
            r.push(piece);
            assert(r.deep_view() =~~= prev + seq![piece@]);
            assert(spec_split_from(v@, sep, start as int) =~~= seq![
                v@.subrange(start as int, i as int),
            ] + spec_split_from(v@, sep, i + 1));
            start = i + 1;
            assert(spec_split(v@, sep) =~~= r.deep_view() + spec_split_from(
                v@,
                sep,
                start as int,
            ));
        }
    }
    r
}

/// `parts[k..]` joined with `sep` between the pieces.
pub open spec fn spec_join_from(parts: Seq<Seq<u8>>, sep: u8, k: int) -> Seq<u8>
    decreases parts.len() - k,
{
    if k < 0 || k >= parts.len() {
        Seq::empty()
    } else if k == parts.len() - 1 {
        parts[k]
    } else {
        parts[k] + seq![sep] + spec_join_from(parts, sep, k + 1)
    }
}

/// All the pieces joined with `sep` between them.
pub open spec fn spec_join(parts: Seq<Seq<u8>>, sep: u8) -> Seq<u8> {
    spec_join_from(parts, sep, 0)
}

/// Joining from `k` equals joining the piece list that starts at `base`.
pub proof fn lemma_join_shift(parts: Seq<Seq<u8>>, sep: u8, base: int, k: int)
    requires
        0 <= base <= k <= parts.len(),
    ensures
        spec_join_from(parts, sep, k) == spec_join_from(
            parts.subrange(base, parts.len() as int),
            sep,
            k - base,
        ),
    decreases parts.len() - k,
{
    let t = parts.subrange(base, parts.len() as int);
    if k >= parts.len() {
    } else if k == parts.len() - 1 {
        assert(parts[k] == t[k - base]);
    } else {
        lemma_join_shift(parts, sep, base, k + 1);
        assert(parts[k] == t[k - base]);
    }
}

/// Join the pieces with `sep` between them.
pub fn join_bytes(parts: &Vec<Vec<u8>>, sep: u8) -> (r: Vec<u8>)
    ensures
        r@ == spec_join(parts.deep_view(), sep),
{
    let ghost dv = parts.deep_view();
    let mut r: Vec<u8> = Vec::new();
    let mut i: usize = 0;
    while i < parts.len()
        invariant
            i <= dv.len() == parts@.len(),
            dv =~= parts.deep_view(),
            i == 0 ==> r@ =~= Seq::<u8>::empty(),
            0 < i < dv.len() ==> spec_join(dv, sep) =~= r@ + seq![sep] + spec_join_from(
                dv,
                sep,
                i as int,
            ),
            i == dv.len() ==> r@ =~= spec_join(dv, sep),
        decreases parts@.len() - i,
    {
        if i > 0 {
            r.push(sep);
        }
        assert(parts@[i as int]@ == dv[i as int]);
        extend_bytes(&mut r, &parts[i]);
        i = i + 1;
    }
    r
}

/// Splitting a join gives back the pieces, provided none holds the
/// separator.
pub proof fn lemma_split_join(parts: Seq<Seq<u8>>, sep: u8)
    requires
        parts.len() >= 1,
        forall|k: int, j: int|
            0 <= k < parts.len() && 0 <= j < parts[k].len() ==> #[trigger] parts[k][j] != sep,
    ensures
        spec_split(spec_join(parts, sep), sep) == parts,
    decreases parts.len(),
{
    let s = spec_join(parts, sep);
    lemma_find_at(s, sep, 0);
    let f = spec_find_at(s, sep, 0);
    if parts.len() == 1 {
        assert(s == parts[0]);
        assert(forall|j: int| 0 <= j < s.len() ==> s[j] != sep);
        assert(f == s.len());
        assert(spec_split(s, sep) =~= seq![s.subrange(0, s.len() as int)]);
        assert(s.subrange(0, s.len() as int) =~= parts[0]);
        assert(spec_split(s, sep) =~= parts);
    } else {
        let rest = parts.subrange(1, parts.len() as int);
        lemma_join_shift(parts, sep, 1, 1);
        let jr = spec_join(rest, sep);
        assert(s == parts[0] + seq![sep] + jr);
        let p0 = parts[0].len() as int;
        assert(s[p0] == sep);
        assert(forall|m: int| 0 <= m < p0 ==> s[m] == parts[0][m] && s[m] != sep);
        assert(f == p0);
        assert(spec_split(s, sep) =~= seq![s.subrange(0, p0)] + spec_split_from(s, sep, p0 + 1));
        assert(s.subrange(0, p0) =~= parts[0]);
        lemma_split_shift(s, sep, p0 + 1, p0 + 1);
        assert(s.subrange(p0 + 1, s.len() as int) =~= jr);
        assert(forall|k: int, j: int|
            0 <= k < rest.len() && 0 <= j < rest[k].len() ==> #[trigger] rest[k][j] != sep);
        lemma_split_join(rest, sep);
        assert(spec_split(s, sep) =~= seq![parts[0]] + rest);
        assert(seq![parts[0]] + rest =~= parts);
    }
}

/// Is `b` an ASCII hexadecimal digit, either case?
pub open spec fn is_hex_digit(b: u8) -> bool {
    48 <= b <= 57 || 97 <= b <= 102 || 65 <= b <= 70
}

/// Value of one hexadecimal digit.
pub open spec fn hex_digit_val(b: u8) -> nat {
    if 48 <= b <= 57 {
        (b - 48) as nat
    } else if 97 <= b <= 102 {
        (b - 87) as nat
    } else if 65 <= b <= 70 {
        (b - 55) as nat
    } else {
        0
    }
}

/// Numeric value of a string of hexadecimal digits.
pub open spec fn spec_hval(s: Seq<u8>) -> nat
    decreases s.len(),
{
    if s.len() == 0 {
        0
    } else {
        (spec_hval(s.drop_last()) * 16 + hex_digit_val(s.last())) as nat
    }
}

/// The lowercase hexadecimal digit of `d`.
pub open spec fn spec_hex_digit(d: nat) -> u8 {
    if d < 10 {
        (48 + d) as u8
    } else {
        (87 + d) as u8
    }
}

/// Lowercase hexadecimal digits of `n`, most significant first.
pub open spec fn spec_hex(n: nat) -> Seq<u8>
    decreases n,
{
    if n < 16 {
        seq![spec_hex_digit(n)]
    } else {
        spec_hex(n / 16) + seq![spec_hex_digit(n % 16)]
    }
}

/// The hexadecimal rendering of `n` is made of hex digits and parses
/// back to `n`; for a 16-bit value it has at most four digits.
pub proof fn lemma_hval_hex(n: nat)
    ensures
        spec_hex(n).len() >= 1,
        forall|i: int| 0 <= i < spec_hex(n).len() ==> is_hex_digit(#[trigger] spec_hex(n)[i]),
        spec_hval(spec_hex(n)) == n,
        n < 16 ==> spec_hex(n).len() == 1,
        n < 256 ==> spec_hex(n).len() <= 2,
        n < 4096 ==> spec_hex(n).len() <= 3,
        n < 65536 ==> spec_hex(n).len() <= 4,
    decreases n,
{
    if n < 16 {
        let s = spec_hex(n);
        assert(s =~= seq![spec_hex_digit(n)]);
        assert(s.drop_last() =~= Seq::<u8>::empty());
        assert(spec_hval(s.drop_last()) == 0);
        assert(hex_digit_val(spec_hex_digit(n)) == n);
        assert(spec_hval(s) == n);
    } else {
        lemma_hval_hex(n / 16);
        let s = spec_hex(n);
        assert(s.drop_last() =~= spec_hex(n / 16));
        assert(s.last() == spec_hex_digit(n % 16));
        assert(hex_digit_val(spec_hex_digit(n % 16)) == n % 16);
        assert(spec_hval(s) == ((n / 16) * 16 + n % 16) as nat);
        assert((n / 16) * 16 + n % 16 == n) by (nonlinear_arith);
    }
}

/// Render `n` in lowercase hexadecimal.
pub fn u64_to_hex(n: u64) -> (r: Vec<u8>)
    ensures
        r@ == spec_hex(n as nat),
    decreases n,
{
    if n < 16 {
        let mut v: Vec<u8> = Vec::new();
        let d = n as u8;
        v.push(if d < 10 {
            48 + d
        } else {
            87 + d
        });
        assert(v@ =~= spec_hex(n as nat));
        v
    } else {
        let mut v = u64_to_hex(n / 16);
        let d = (n % 16) as u8;
        v.push(if d < 10 {
            48 + d
        } else {
            87 + d
        });
        assert(v@ =~= spec_hex(n as nat));
        v
    }
}

/// A digit string's value is at least the value of any of its prefixes.
pub proof fn lemma_val_prefix(s: Seq<u8>, k: int)
    requires
        0 <= k <= s.len(),
        is_digits(s),
    ensures
        spec_val(s.subrange(0, k)) <= spec_val(s),
    decreases s.len() - k,
{
    if k == s.len() {
        assert(s.subrange(0, k) =~= s);
    } else {
        lemma_val_prefix(s, k + 1);
        let p = s.subrange(0, k + 1);
        assert(p.drop_last() =~= s.subrange(0, k));
        assert(spec_val(p) == (spec_val(s.subrange(0, k)) * 10 + (p.last() - 48)) as nat);
        assert(spec_val(s.subrange(0, k)) * 10 >= spec_val(s.subrange(0, k)));
    }
}

/// How many digits small numbers take.
pub proof fn lemma_dec_len_small(n: nat)
    ensures
        n < 10 ==> spec_dec(n).len() == 1,
        n < 100 ==> spec_dec(n).len() <= 2,
        n < 1000 ==> spec_dec(n).len() <= 3,
    decreases n,
{
    if n >= 10 {
        if n < 1000 {
            lemma_dec_len_small(n / 10);
        }
    }
}

/// Index of the last occurrence of `b` in `s`, or `-1`.
pub open spec fn spec_rfind(s: Seq<u8>, b: u8) -> int
    decreases s.len(),
{
    if s.len() == 0 {
        -1
    } else if s.last() == b {
        s.len() - 1
    } else {
        spec_rfind(s.drop_last(), b)
    }
}

/// What `spec_rfind` returns: the last occurrence, or `-1`.
pub proof fn lemma_rfind(s: Seq<u8>, b: u8)
    ensures
        spec_rfind(s, b) >= -1,
        spec_rfind(s, b) == -1 ==> forall|i: int| 0 <= i < s.len() ==> s[i] != b,
        spec_rfind(s, b) >= 0 ==> spec_rfind(s, b) < s.len() && s[spec_rfind(s, b)] == b
            && forall|i: int| spec_rfind(s, b) < i < s.len() ==> s[i] != b,
    decreases s.len(),
{
    if s.len() > 0 && s.last() != b {
        let t = s.drop_last();
        lemma_rfind(t, b);
        let f = spec_rfind(s, b);
        if f == -1 {
            assert forall|i: int| 0 <= i < s.len() implies s[i] != b by {
                if i < t.len() {
                    assert(t[i] == s[i]);
                }
            }
        } else {
            assert(t[f] == s[f]);
            assert forall|i: int| f < i < s.len() implies s[i] != b by {
                if i < t.len() {
                    assert(t[i] == s[i]);
                }
            }
        }
    }
}

/// Index of the last occurrence of `b` in `v`, if any.
pub fn rfind_byte(v: &Vec<u8>, b: u8) -> (r: Option<usize>)
    ensures
        match r {
            Some(i) => spec_rfind(v@, b) == i,
            None => spec_rfind(v@, b) == -1,
        },
{
    let mut best: Option<usize> = None;
    let mut i: usize = 0;
    while i < v.len()
        invariant
            i <= v@.len(),
            match best {
                Some(k) => k < i <= v@.len() && v@[k as int] == b && forall|j: int|
                    k < j < i ==> v@[j] != b,
                None => forall|j: int| 0 <= j < i ==> v@[j] != b,
            },
        decreases v@.len() - i,
    {
        if v[i] == b {
            best = Some(i);
        }
        i = i + 1;
    }
    proof {
        lemma_rfind(v@, b);
        let f = spec_rfind(v@, b);
        match best {
            Some(k) => {
                assert(f >= 0) by {
                    if f == -1 {
                        assert(v@[k as int] != b);
                    }
                }
                assert(f == k) by {
                    if f < k {
                        assert(v@[k as int] != b);
                    }
                    if f > k {
                        assert(v@[f] != b);
                    }
                }
            },
            None => {
                assert(f == -1) by {
                    if f >= 0 {
                        assert(v@[f] != b);
                    }
                }
            },
        }
    }
    best
}

/// Start index of the last occurrence of the pair `a b` in `s`, or `-1`.
pub open spec fn spec_rfind2(s: Seq<u8>, a: u8, b: u8) -> int
    decreases s.len(),
{
    if s.len() < 2 {
        -1
    } else if s[s.len() - 2] == a && s[s.len() - 1] == b {
        s.len() - 2
    } else {
        spec_rfind2(s.drop_last(), a, b)
    }
}

/// What `spec_rfind2` returns: the last occurrence, or `-1`.
pub proof fn lemma_rfind2(s: Seq<u8>, a: u8, b: u8)
    ensures
        spec_rfind2(s, a, b) >= -1,
        spec_rfind2(s, a, b) == -1 ==> forall|i: int|
            0 <= i && i + 2 <= s.len() ==> !(#[trigger] s[i] == a && s[i + 1] == b),
        spec_rfind2(s, a, b) >= 0 ==> spec_rfind2(s, a, b) + 2 <= s.len() && s[spec_rfind2(
            s,
            a,
            b,
        )] == a && s[spec_rfind2(s, a, b) + 1] == b && forall|i: int|
            spec_rfind2(s, a, b) < i && i + 2 <= s.len() ==> !(#[trigger] s[i] == a && s[i + 1]
                == b),
    decreases s.len(),
{
    if s.len() >= 2 && !(s[s.len() - 2] == a && s[s.len() - 1] == b) {
        let t = s.drop_last();
        lemma_rfind2(t, a, b);
        let f = spec_rfind2(s, a, b);
        assert(f == spec_rfind2(t, a, b));
        if f == -1 {
            assert forall|i: int| 0 <= i && i + 2 <= s.len() implies !(#[trigger] s[i] == a && s[i
                + 1] == b) by {
                if i + 2 <= t.len() {
                    assert(!(t[i] == a && t[i + 1] == b));
                    assert(t[i] == s[i] && t[i + 1] == s[i + 1]);
                }
            }
        } else {
            assert(t[f] == s[f] && t[f + 1] == s[f + 1]);
            assert forall|i: int| f < i && i + 2 <= s.len() implies !(#[trigger] s[i] == a && s[i
                + 1] == b) by {
                if i + 2 <= t.len() {
                    assert(!(t[i] == a && t[i + 1] == b));
                    assert(t[i] == s[i] && t[i + 1] == s[i + 1]);
                }
            }
        }
    }
}

/// Start of the last occurrence of the pair `a b` in `v`, if any.
pub fn rfind2(v: &Vec<u8>, a: u8, b: u8) -> (r: Option<usize>)
    ensures
        match r {
            Some(i) => spec_rfind2(v@, a, b) == i,
            None => spec_rfind2(v@, a, b) == -1,
        },
{
    if v.len() < 2 {
        proof {
            lemma_rfind2(v@, a, b);
        }
        return None;
    }
    let mut best: Option<usize> = None;
    let mut i: usize = 0;
    while i < v.len() - 1
        invariant
            v@.len() >= 2,
            i <= v@.len() - 1,
            match best {
                Some(k) => k + 2 <= v@.len() && v@[k as int] == a && v@[k + 1] == b && forall|
                    j: int,
                |
                    k < j < i && j + 2 <= v@.len() ==> !(#[trigger] v@[j] == a && v@[j + 1] == b),
                None => forall|j: int|
                    0 <= j < i && j + 2 <= v@.len() ==> !(#[trigger] v@[j] == a && v@[j + 1] == b),
            },
        decreases v@.len() - i,
    {
        if v[i] == a && v[i + 1] == b {
            best = Some(i);
        }
        i = i + 1;
    }
    proof {
        lemma_rfind2(v@, a, b);
        let f = spec_rfind2(v@, a, b);
        match best {
            Some(k) => {
                assert(f >= 0) by {
                    if f == -1 {
                        assert(!(v@[k as int] == a && v@[k + 1] == b));
                    }
                }
                assert(f == k) by {
                    if f < k {
                        assert(!(v@[k as int] == a && v@[k + 1] == b));
                    }
                    if f > k {
                        assert(!(v@[f] == a && v@[f + 1] == b));
                    }
                }
            },
            None => {
                assert(f == -1) by {
                    if f >= 0 {
                        assert(!(v@[f] == a && v@[f + 1] == b));
                    }
                }
            },
        }
    }
    best
}

/// First index at or after `from` whose byte is not a decimal digit.
pub open spec fn spec_digits_end(s: Seq<u8>, from: int) -> int
    decreases s.len() - from,
{
    if from < 0 || from >= s.len() {
        s.len() as int
    } else if !is_digit(s[from]) {
        from
    } else {
        spec_digits_end(s, from + 1)
    }
}

/// What `spec_digits_end` returns.
pub proof fn lemma_digits_end(s: Seq<u8>, from: int)
    requires
        0 <= from <= s.len(),
    ensures
        from <= spec_digits_end(s, from) <= s.len(),
        spec_digits_end(s, from) < s.len() ==> !is_digit(s[spec_digits_end(s, from)]),
        forall|j: int| from <= j < spec_digits_end(s, from) ==> is_digit(#[trigger] s[j]),
    decreases s.len() - from,
{
    if from < s.len() && is_digit(s[from]) {
        lemma_digits_end(s, from + 1);
    }
}

/// First index at or after `from` in `v` whose byte is not a digit.
pub fn digits_end(v: &Vec<u8>, from: usize) -> (r: usize)
    requires
        from <= v@.len(),
    ensures
        r == spec_digits_end(v@, from as int),
{
    let mut i: usize = from;
    while i < v.len() && 48 <= v[i] && v[i] <= 57
        invariant
            from <= i <= v@.len(),
            spec_digits_end(v@, from as int) == spec_digits_end(v@, i as int),
        decreases v@.len() - i,
    {
        i = i + 1;
    }
    i
}

/// Does `v` start with `prefix`?
pub fn starts_with(v: &Vec<u8>, prefix: &Vec<u8>) -> (r: bool)
    ensures
        r == (v@.len() >= prefix@.len() && v@.subrange(0, prefix@.len() as int) == prefix@),
{
    if v.len() < prefix.len() {
        return false;
    }
    let mut i: usize = 0;
    while i < prefix.len()
        invariant
            i <= prefix@.len() <= v@.len(),
            forall|j: int| 0 <= j < i ==> v@[j] == prefix@[j],
        decreases prefix@.len() - i,
    {
        if v[i] != prefix[i] {
            assert(v@.subrange(0, prefix@.len() as int)[i as int] != prefix@[i as int]);
            return false;
        }
        i = i + 1;
    }
    assert(v@.subrange(0, prefix@.len() as int) =~= prefix@);
    true
}

/// Copy of `v`.
pub fn copy_bytes(v: &Vec<u8>) -> (r: Vec<u8>)
    ensures
        r@ == v@,
{
    let r = subvec(v, 0, v.len());
    assert(v@.subrange(0, v@.len() as int) =~= v@);
    r
}

/// Joining the pieces of a split gives the string back.
pub proof fn lemma_join_split(s: Seq<u8>, sep: u8, from: int)
    requires
        0 <= from <= s.len(),
    ensures
        spec_join(spec_split_from(s, sep, from), sep) == s.subrange(from, s.len() as int),
        spec_split_from(s, sep, from).len() >= 1,
    decreases s.len() - from,
{
    lemma_find_at(s, sep, from);
    let i = spec_find_at(s, sep, from);
    let parts = spec_split_from(s, sep, from);
    if i >= s.len() {
        assert(parts =~= seq![s.subrange(from, s.len() as int)]);
        assert(spec_join(parts, sep) == s.subrange(from, s.len() as int));
    } else {
        lemma_join_split(s, sep, i + 1);
        let rest = spec_split_from(s, sep, i + 1);
        assert(parts =~= seq![s.subrange(from, i)] + rest);
        assert(parts.len() >= 2);
        lemma_join_shift(parts, sep, 1, 1);
        assert(parts.subrange(1, parts.len() as int) =~= rest);
        assert(spec_join(parts, sep) == parts[0] + seq![sep] + spec_join(rest, sep));
        assert(spec_join(parts, sep) =~= s.subrange(from, s.len() as int));
    }
}

/// Every byte of a join is the separator or a byte of some piece.
pub proof fn lemma_join_chars(parts: Seq<Seq<u8>>, sep: u8)
    ensures
        forall|i: int|
            0 <= i < spec_join(parts, sep).len() ==> #[trigger] spec_join(parts, sep)[i] == sep
                || exists|k: int, j: int|
                0 <= k < parts.len() && 0 <= j < parts[k].len() && #[trigger] parts[k][j]
                    == spec_join(parts, sep)[i],
    decreases parts.len(),
{
    let jn = spec_join(parts, sep);
    if parts.len() == 0 {
    } else if parts.len() == 1 {
        assert forall|i: int| 0 <= i < jn.len() implies #[trigger] jn[i] == sep || exists|
            k: int,
            j: int,
        |
            0 <= k < parts.len() && 0 <= j < parts[k].len() && #[trigger] parts[k][j]
                == jn[i] by {
            assert(parts[0][i] == jn[i]);
        }
    } else {
        let rest = parts.subrange(1, parts.len() as int);
        lemma_join_shift(parts, sep, 1, 1);
        lemma_join_chars(rest, sep);
        let jr = spec_join(rest, sep);
        let p0 = parts[0].len() as int;
        assert(jn == parts[0] + seq![sep] + jr);
        assert forall|i: int| 0 <= i < jn.len() implies #[trigger] jn[i] == sep || exists|
            k: int,
            j: int,
        |
            0 <= k < parts.len() && 0 <= j < parts[k].len() && #[trigger] parts[k][j]
                == jn[i] by {
            if i < p0 {
                assert(parts[0][i] == jn[i]);
            } else if i == p0 {
            } else {
                let m = i - p0 - 1;
                assert(jr[m] == jn[i]);
                if jr[m] != sep {
                    let (k, j): (int, int) = choose|k: int, j: int|
                        0 <= k < rest.len() && 0 <= j < rest[k].len() && #[trigger] rest[k][j]
                            == jr[m];
                    assert(parts[k + 1][j] == jn[i]);
                }
            }
        }
    }
}

/// A join of nonempty, separator-free pieces never starts or ends with
/// the separator and never holds it twice in a row.
pub proof fn lemma_join_sep_shape(parts: Seq<Seq<u8>>, sep: u8)
    requires
        parts.len() >= 1,
        forall|k: int| 0 <= k < parts.len() ==> (#[trigger] parts[k]).len() >= 1,
        forall|k: int, j: int|
            0 <= k < parts.len() && 0 <= j < parts[k].len() ==> #[trigger] parts[k][j] != sep,
    ensures
        spec_join(parts, sep).len() >= 1,
        spec_join(parts, sep)[0] != sep,
        spec_join(parts, sep).last() != sep,
        forall|i: int|
            0 <= i < spec_join(parts, sep).len() - 1 ==> !(#[trigger] spec_join(parts, sep)[i]
                == sep && spec_join(parts, sep)[i + 1] == sep),
    decreases parts.len(),
{
    let jn = spec_join(parts, sep);
    if parts.len() == 1 {
        assert(jn == parts[0]);
        assert(jn[0] == parts[0][0]);
        assert(jn.last() == parts[0][jn.len() - 1]);
        assert forall|i: int| 0 <= i < jn.len() - 1 implies !(#[trigger] jn[i] == sep && jn[i + 1]
            == sep) by {
            assert(parts[0][i] != sep);
        }
    } else {
        let rest = parts.subrange(1, parts.len() as int);
        lemma_join_shift(parts, sep, 1, 1);
        lemma_join_sep_shape(rest, sep);
        let jr = spec_join(rest, sep);
        let p0 = parts[0].len() as int;
        assert(jn == parts[0] + seq![sep] + jr);
        assert(jn[0] == parts[0][0]);
        assert(jn.last() == jr.last());
        assert forall|i: int| 0 <= i < jn.len() - 1 implies !(#[trigger] jn[i] == sep && jn[i + 1]
            == sep) by {
            if i < p0 - 1 {
                assert(jn[i] == parts[0][i]);
                assert(parts[0][i] != sep);
            } else if i == p0 - 1 {
                assert(jn[i] == parts[0][p0 - 1]);
                assert(parts[0][p0 - 1] != sep);
            } else if i == p0 {
                assert(jn[i + 1] == jr[0]);
            } else {
                assert(jn[i] == jr[i - p0 - 1]);
                assert(jn[i + 1] == jr[i - p0]);
            }
        }
    }
}

/// ASCII whitespace.
pub open spec fn is_ws(b: u8) -> bool {
    b == 9 || b == 10 || b == 11 || b == 12 || b == 13 || b == 32
}

/// `s` without leading whitespace.
pub open spec fn spec_trim_start(s: Seq<u8>) -> Seq<u8>
    decreases s.len(),
{
    if s.len() > 0 && is_ws(s[0]) {
        spec_trim_start(s.subrange(1, s.len() as int))
    } else {
        s
    }
}

/// `s` without trailing whitespace.
pub open spec fn spec_trim_end(s: Seq<u8>) -> Seq<u8>
    decreases s.len(),
{
    if s.len() > 0 && is_ws(s.last()) {
        spec_trim_end(s.drop_last())
    } else {
        s
    }
}

/// `s` without leading or trailing whitespace.
pub open spec fn spec_trim(s: Seq<u8>) -> Seq<u8> {
    spec_trim_end(spec_trim_start(s))
}

/// Is `b` ASCII whitespace?
pub fn ws_byte(b: u8) -> (r: bool)
    ensures
        r == is_ws(b),
{
    b == 9 || b == 10 || b == 11 || b == 12 || b == 13 || b == 32
}

/// Copy of `v` without leading or trailing whitespace.
pub fn trim(v: &Vec<u8>) -> (r: Vec<u8>)
    ensures
        r@ == spec_trim(v@),
{
    let mut lo: usize = 0;
    assert(v@.subrange(0, v@.len() as int) =~= v@);
    while lo < v.len() && ws_byte(v[lo])
        invariant
            lo <= v@.len(),
            spec_trim_start(v@) == spec_trim_start(v@.subrange(lo as int, v@.len() as int)),
        decreases v@.len() - lo,
    {
        assert(v@.subrange(lo as int, v@.len() as int).subrange(
            1,
            v@.len() - lo,
        ) =~= v@.subrange(lo + 1, v@.len() as int));
        lo = lo + 1;
    }
    let ghost t = v@.subrange(lo as int, v@.len() as int);
    proof {
        if lo < v@.len() {
            assert(spec_trim_start(t) == t);
        } else {
            assert(t =~= Seq::<u8>::empty());
        }
    }
    let mut hi: usize = v.len();
    while hi > lo && ws_byte(v[hi - 1])
        invariant
            lo <= hi <= v@.len(),
            spec_trim_end(t) == spec_trim_end(v@.subrange(lo as int, hi as int)),
        decreases hi,
    {
        assert(v@.subrange(lo as int, hi as int).drop_last() =~= v@.subrange(lo as int, hi - 1));
        hi = hi - 1;
    }
    proof {
        let u = v@.subrange(lo as int, hi as int);
        if hi > lo {
            assert(spec_trim_end(u) == u);
        } else {
            assert(u =~= Seq::<u8>::empty());
        }
    }
    subvec(v, lo, hi)
}

/// `s` with every newline replaced by a space.
pub open spec fn spec_map_nl(s: Seq<u8>) -> Seq<u8> {
    s.map_values(|b: u8| if b == 10 { 32u8 } else { b })
}

/// Copy of `v` with every newline replaced by a space.
pub fn map_nl(v: &Vec<u8>) -> (r: Vec<u8>)
    ensures
        r@ == spec_map_nl(v@),
{
    let mut r: Vec<u8> = Vec::new();
    let mut i: usize = 0;
    while i < v.len()
        invariant
            i <= v@.len(),
            r@ =~= spec_map_nl(v@.subrange(0, i as int)),
        decreases v@.len() - i,
    {
        let b = v[i];
        r.push(if b == 10 { 32 } else { b });
        assert(r@ =~= spec_map_nl(v@.subrange(0, i + 1)));
        i = i + 1;
    }
    assert(v@.subrange(0, v@.len() as int) =~= v@);
    r
}

/// A statement fragment, cleaned: newlines become spaces, then the ends
/// are trimmed.
pub open spec fn spec_clean(s: Seq<u8>) -> Seq<u8> {
    spec_trim(spec_map_nl(s))
}

/// Clean one statement fragment.
pub fn clean_fragment(v: &Vec<u8>) -> (r: Vec<u8>)
    ensures
        r@ == spec_clean(v@),
{
    let mapped = map_nl(v);
    trim(&mapped)
}

/// Index of the first occurrence of the two-byte separator `a b` in `s`
/// at or after `from`, or `s.len()` if there is none.
pub open spec fn spec_find2_at(s: Seq<u8>, a: u8, b: u8, from: int) -> int
    decreases s.len() - from,
{
    if from < 0 || from + 2 > s.len() {
        s.len() as int
    } else if s[from] == a && s[from + 1] == b {
        from
    } else {
        spec_find2_at(s, a, b, from + 1)
    }
}

/// What `spec_find2_at` returns: the first pair, or the length.
pub proof fn lemma_find2_at(s: Seq<u8>, a: u8, b: u8, from: int)
    requires
        0 <= from <= s.len(),
    ensures
        from <= spec_find2_at(s, a, b, from) <= s.len(),
        spec_find2_at(s, a, b, from) < s.len() ==> spec_find2_at(s, a, b, from) + 2 <= s.len()
            && s[spec_find2_at(s, a, b, from)] == a && s[spec_find2_at(s, a, b, from) + 1] == b,
        forall|j: int|
            from <= j < spec_find2_at(s, a, b, from) && j + 2 <= s.len() ==> !(#[trigger] s[j] == a
                && s[j + 1] == b),
    decreases s.len() - from,
{
    if from + 2 <= s.len() && !(s[from] == a && s[from + 1] == b) {
        lemma_find2_at(s, a, b, from + 1);
    }
}

/// Pieces of `s` between occurrences of the two-byte separator `a b`,
/// from position `from` on.
pub open spec fn spec_split2_from(s: Seq<u8>, a: u8, b: u8, from: int) -> Seq<Seq<u8>>
    recommends
        0 <= from <= s.len(),
    decreases s.len() - from,
{
    let i = spec_find2_at(s, a, b, from);
    let cut = if i >= from { i } else { from };
    if from < 0 || cut >= s.len() {
        seq![s.subrange(if 0 <= from <= s.len() { from } else { 0 }, s.len() as int)]
    } else {
        seq![s.subrange(from, cut)] + spec_split2_from(
            s,
            a,
            b,
            if cut + 2 <= s.len() {
                cut + 2
            } else {
                s.len() as int
            },
        )
    }
}

/// Pieces of `s` between occurrences of the two-byte separator `a b`.
pub open spec fn spec_split2(s: Seq<u8>, a: u8, b: u8) -> Seq<Seq<u8>> {
    spec_split2_from(s, a, b, 0)
}

/// First occurrence of the pair `a b` in `v` at or after `from`.
pub fn find2_at(v: &Vec<u8>, a: u8, b: u8, from: usize) -> (r: usize)
    requires
        from <= v@.len(),
    ensures
        r == spec_find2_at(v@, a, b, from as int),
{
    if v.len() < 2 {
        return v.len();
    }
    let mut i: usize = from;
    while i < v.len() - 1
        invariant
            from <= i,
            i <= v@.len(),
            v@.len() >= 2,
            spec_find2_at(v@, a, b, from as int) == spec_find2_at(v@, a, b, i as int),
        decreases v@.len() - i,
    {
        if v[i] == a && v[i + 1] == b {
            return i;
        }
        i = i + 1;
    }
    v.len()
}

/// Split `v` on the two-byte separator `a b`.
pub fn split2_bytes(v: &Vec<u8>, a: u8, b: u8) -> (r: Vec<Vec<u8>>)
    ensures
        r.deep_view() == spec_split2(v@, a, b),
{
    let mut r: Vec<Vec<u8>> = Vec::new();
    let mut start: usize = 0;
    loop
        invariant_except_break
            spec_split2(v@, a, b) == r.deep_view() + spec_split2_from(v@, a, b, start as int),
        invariant
            start <= v@.len(),
        ensures
            r.deep_view() == spec_split2(v@, a, b),
        decreases v@.len() - start,
    {
        proof {
            lemma_find2_at(v@, a, b, start as int);
        }
        let i = find2_at(v, a, b, start);
        if i == v.len() {
            let ghost prev = r.deep_view();
            let tail = subvec(v, start, v.len());
            r.push(tail);
            assert(r.deep_view() =~~= prev + seq![tail@]);
            assert(spec_split2_from(v@, a, b, start as int) =~~= seq![
                v@.subrange(start as int, v@.len() as int),
            ]);
            assert(r.deep_view() =~~= spec_split2(v@, a, b));
            break;
        } else {
            let ghost prev = r.deep_view();
            let piece = subvec(v, start, i);
            r.push(piece);
            assert(r.deep_view() =~~= prev + seq![piece@]);
            assert(spec_split2_from(v@, a, b, start as int) =~~= seq![
                v@.subrange(start as int, i as int),
            ] + spec_split2_from(v@, a, b, i + 2));
            start = i + 2;
            assert(spec_split2(v@, a, b) =~~= r.deep_view() + spec_split2_from(
                v@,
                a,
                b,
                start as int,
            ));
        }
    }
    r
}

/// Byte-wise lexicographic order, the order `sort` on strings uses.
pub open spec fn spec_lex_le(x: Seq<u8>, y: Seq<u8>) -> bool
    decreases x.len(),
{
    if x.len() == 0 {
        true
    } else if y.len() == 0 {
        false
    } else if x[0] < y[0] {
        true
    } else if x[0] > y[0] {
        false
    } else {
        spec_lex_le(x.subrange(1, x.len() as int), y.subrange(1, y.len() as int))
    }
}

/// The order is total.
pub proof fn lemma_lex_total(x: Seq<u8>, y: Seq<u8>)
    ensures
        spec_lex_le(x, y) || spec_lex_le(y, x),
    decreases x.len(),
{
    if x.len() > 0 && y.len() > 0 && x[0] == y[0] {
        lemma_lex_total(x.subrange(1, x.len() as int), y.subrange(1, y.len() as int));
    }
}

/// The order is transitive.
pub proof fn lemma_lex_trans(x: Seq<u8>, y: Seq<u8>, z: Seq<u8>)
    requires
        spec_lex_le(x, y),
        spec_lex_le(y, z),
    ensures
        spec_lex_le(x, z),
    decreases x.len(),
{
    if x.len() > 0 && y.len() > 0 && z.len() > 0 && x[0] == y[0] && y[0] == z[0] {
        lemma_lex_trans(
            x.subrange(1, x.len() as int),
            y.subrange(1, y.len() as int),
            z.subrange(1, z.len() as int),
        );
    }
}

/// Compare two byte strings in lexicographic order.
pub fn lex_le(x: &Vec<u8>, y: &Vec<u8>) -> (r: bool)
    ensures
        r == spec_lex_le(x@, y@),
{
    let mut i: usize = 0;
    assert(x@.subrange(0, x@.len() as int) =~= x@);
    assert(y@.subrange(0, y@.len() as int) =~= y@);
    while i < x.len() && i < y.len()
        invariant
            i <= x@.len(),
            i <= y@.len(),
            spec_lex_le(x@, y@) == spec_lex_le(
                x@.subrange(i as int, x@.len() as int),
                y@.subrange(i as int, y@.len() as int),
            ),
        decreases x@.len() - i,
    {
        let a = x[i];
        let b = y[i];
        if a < b {
            return true;
        }
        if a > b {
            return false;
        }
        assert(x@.subrange(i as int, x@.len() as int).subrange(
            1,
            x@.len() - i,
        ) =~= x@.subrange(i + 1, x@.len() as int));
        assert(y@.subrange(i as int, y@.len() as int).subrange(
            1,
            y@.len() - i,
        ) =~= y@.subrange(i + 1, y@.len() as int));
        i = i + 1;
    }
    x.len() <= y.len()
}

} // verus!
