//! Fixed-width fields of a header record: null-terminated strings and
//! zero-padded octal numbers.
use vstd::arithmetic::div_mod::{lemma_div_denominator, lemma_fundamental_div_mod};
use vstd::prelude::*;

verus! {

/// A field of the header record, named in errors.
#[derive(Clone, Copy, Debug, PartialEq, Eq, Structural)]
pub enum Field {
    Name,
    Mode,
    Uid,
    Gid,
    Size,
    Mtime,
    Checksum,
    Typeflag,
    Linkname,
    Magic,
    Version,
    Uname,
    Gname,
    Devmajor,
    Devminor,
    Prefix,
}

/// Everything that can go wrong while encoding, decoding or walking an archive.
#[derive(Clone, Copy, Debug, PartialEq, Eq, Structural)]
pub enum TarError {
    /// Fewer bytes remain than a record, its content or its padding needs.
    Truncated,
    /// A string field has no null byte within its width.
    Unterminated(Field),
    /// A numeric field is not octal text, or its value is out of range.
    InvalidOctal(Field),
    /// A string field is not UTF-8.
    InvalidUtf8(Field),
    /// The sum of the record's bytes disagrees with the stored checksum.
    ChecksumMismatch { expected: u32, recorded: u32 },
    /// A value does not fit its field, or a string holds a null byte.
    Unencodable(Field),
    /// An update names an entry that the archive does not hold.
    NotInArchive,
}

pub open spec fn pow8(n: nat) -> nat
    decreases n,
{
    if n == 0 {
        1
    } else {
        8 * pow8((n - 1) as nat)
    }
}

pub proof fn lemma_pow8_pos(n: nat)
    ensures
        pow8(n) > 0,
    decreases n,
{
    if n > 0 {
        lemma_pow8_pos((n - 1) as nat);
    }
}

pub open spec fn is_octal_digit(b: u8) -> bool {
    48 <= b <= 55
}

/// The lowest `w` octal digits of `n` as ASCII, most significant first.
pub open spec fn octal_digits(n: nat, w: nat) -> Seq<u8>
    decreases w,
{
    if w == 0 {
        Seq::empty()
    } else {
        octal_digits(n / 8, (w - 1) as nat).push((48 + n % 8) as u8)
    }
}

/// Non-empty text made of octal digits only.
pub open spec fn octal_text(s: Seq<u8>) -> bool {
    s.len() > 0 && forall|i: int| 0 <= i < s.len() ==> is_octal_digit(#[trigger] s[i])
}

/// The number that a text of octal digits denotes.
pub open spec fn octal_value(s: Seq<u8>) -> nat
    decreases s.len(),
{
    if s.len() == 0 {
        0
    } else {
        octal_value(s.drop_last()) * 8 + (s.last() - 48) as nat
    }
}

pub open spec fn zeros(n: nat) -> Seq<u8> {
    Seq::new(n, |i: int| 0u8)
}

/// A string that fits a field of width `w` with its terminator.
pub open spec fn fits_cstr(s: Seq<u8>, w: nat) -> bool {
    s.len() < w && forall|i: int| 0 <= i < s.len() ==> #[trigger] s[i] != 0
}

/// A string followed by zero bytes up to width `w`.
pub open spec fn cstr_field(s: Seq<u8>, w: nat) -> Seq<u8> {
    s + zeros((w - s.len()) as nat)
}

/// A number as `w - 1` zero-padded octal digits and a null byte.
pub open spec fn octal_field(n: nat, w: nat) -> Seq<u8> {
    cstr_field(octal_digits(n, (w - 1) as nat), w)
}

/// `k` is the position of the first null byte of `s`.
pub open spec fn first_nul(s: Seq<u8>, k: int) -> bool {
    0 <= k < s.len() && s[k] == 0 && forall|j: int| 0 <= j < k ==> s[j] != 0
}

/// The string held by a field: the bytes before its first null byte.
pub open spec fn cstr_of(s: Seq<u8>) -> Option<Seq<u8>> {
    if exists|k: int| first_nul(s, k) {
        Some(s.take(choose|k: int| first_nul(s, k)))
    } else {
        None
    }
}

/// The number held by a numeric field, at most `max`.
pub open spec fn octal_field_value(s: Seq<u8>, max: nat, f: Field) -> Result<nat, TarError> {
    match cstr_of(s) {
        None => Err(TarError::Unterminated(f)),
        Some(t) => if octal_text(t) && octal_value(t) <= max {
            Ok(octal_value(t))
        } else {
            Err(TarError::InvalidOctal(f))
        },
    }
}

pub proof fn lemma_first_nul_unique(s: Seq<u8>, k: int)
    requires
        first_nul(s, k),
    ensures
        cstr_of(s) == Some(s.take(k)),
{
    let c = choose|k: int| first_nul(s, k);
    assert(first_nul(s, c));
    if c < k {
        assert(s[c] != 0);
    } else if c > k {
        assert(s[k] != 0);
    }
}

/// A field written from a fitting string reads back as that string.
pub proof fn lemma_cstr_field(s: Seq<u8>, w: nat)
    requires
        fits_cstr(s, w),
    ensures
        cstr_field(s, w).len() == w,
        cstr_of(cstr_field(s, w)) == Some(s),
{
    let f = cstr_field(s, w);
    assert(first_nul(f, s.len() as int));
    lemma_first_nul_unique(f, s.len() as int);
    assert(f.take(s.len() as int) =~= s);
}

pub proof fn lemma_octal_digits(n: nat, w: nat)
    ensures
        octal_digits(n, w).len() == w,
        forall|i: int| 0 <= i < w ==> is_octal_digit(#[trigger] octal_digits(n, w)[i]),
        n < pow8(w) ==> octal_value(octal_digits(n, w)) == n,
    decreases w,
{
    if w > 0 {
        let w1 = (w - 1) as nat;
        lemma_octal_digits(n / 8, w1);
        let d = octal_digits(n, w);
        assert(d.drop_last() =~= octal_digits(n / 8, w1));
        lemma_fundamental_div_mod(n as int, 8);
        if n < pow8(w) {
            assert(n / 8 < pow8(w1)) by (nonlinear_arith)
                requires
                    n < 8 * pow8(w1),
            ;
        }
    }
}

/// A number below `8^(w-1)` fits a numeric field of width `w` and reads back.
pub proof fn lemma_octal_field(n: nat, w: nat, max: nat, f: Field)
    requires
        w >= 2,
        n < pow8((w - 1) as nat),
        n <= max,
    ensures
        octal_field(n, w).len() == w,
        octal_field_value(octal_field(n, w), max, f) == Ok::<nat, TarError>(n),
{
    let d = octal_digits(n, (w - 1) as nat);
    lemma_octal_digits(n, (w - 1) as nat);
    assert forall|i: int| 0 <= i < d.len() implies #[trigger] d[i] != 0 by {
        assert(is_octal_digit(d[i]));
    }
    lemma_cstr_field(d, w);
}

pub proof fn lemma_octal_value_take(s: Seq<u8>, i: int)
    requires
        0 <= i < s.len(),
    ensures
        octal_value(s.take(i + 1)) == octal_value(s.take(i)) * 8 + (s[i] - 48) as nat,
{
    assert(s.take(i + 1).drop_last() =~= s.take(i));
}

/// Finds the first null byte of a field and returns the string before it.
pub fn read_cstr(s: &[u8]) -> (r: Option<&[u8]>)
    ensures
        match cstr_of(s@) {
            Some(t) => r is Some && r->Some_0@ == t,
            None => r is None,
        },
{
    let mut i: usize = 0;
    while i < s.len() && s[i] != 0
        invariant
            i <= s@.len(),
            forall|j: int| 0 <= j < i ==> s@[j] != 0,
        decreases s@.len() - i,
    {
        i = i + 1;
    }
    if i == s.len() {
        proof {
            assert forall|k: int| !first_nul(s@, k) by {
                if 0 <= k < s@.len() {
                    assert(s@[k] != 0);
                }
            }
        }
        None
    } else {
        proof {
            lemma_first_nul_unique(s@, i as int);
        }
        let t = vstd::slice::slice_subrange(s, 0, i);
        assert(t@ =~= s@.take(i as int));
        Some(t)
    }
}

/// Parses non-empty octal text whose value is at most `max`.
pub fn parse_octal(t: &[u8], max: u64) -> (r: Option<u64>)
    ensures
        r == (if octal_text(t@) && octal_value(t@) <= max {
            Some(octal_value(t@) as u64)
        } else {
            None::<u64>
        }),
{
    if t.len() == 0 {
        return None;
    }
    let mut acc: u64 = 0;
    let mut i: usize = 0;
    while i < t.len()
        invariant
            i <= t@.len(),
            t@.len() > 0,
            acc as nat == octal_value(t@.take(i as int)),
            acc <= max,
            forall|j: int| 0 <= j < i ==> is_octal_digit(#[trigger] t@[j]),
        decreases t@.len() - i,
    {
        let b = t[i];
        if b < 48 || b > 55 {
            assert(!is_octal_digit(t@[i as int]));
            return None;
        }
        proof {
            lemma_octal_value_take(t@, i as int);
        }
        let next: u128 = acc as u128 * 8 + (b - 48) as u128;
        if next > max as u128 {
            proof {
                if octal_text(t@) {
                    lemma_octal_value_mono(t@, i as int + 1);
                }
            }
            return None;
        }
        acc = next as u64;
        i = i + 1;
    }
    assert(t@.take(i as int) =~= t@);
    Some(acc)
}

/// A prefix of octal text denotes no more than the whole.
pub proof fn lemma_octal_value_mono(s: Seq<u8>, i: int)
    requires
        octal_text(s),
        0 <= i <= s.len(),
    ensures
        octal_value(s.take(i)) <= octal_value(s),
    decreases s.len() - i,
{
    if i < s.len() {
        lemma_octal_value_take(s, i);
        lemma_octal_value_mono(s, i + 1);
    } else {
        assert(s.take(i) =~= s);
    }
}

/// Writes `n` as `w` zero-padded octal digits, or `None` when it needs more.
pub fn octal_text_of(n: u64, w: usize) -> (r: Option<Vec<u8>>)
    ensures
        match r {
            Some(v) => n < pow8(w as nat) && v@ == octal_digits(n as nat, w as nat),
            None => n >= pow8(w as nat),
        },
{
    let mut v: Vec<u8> = vec![0u8; w];
    let mut cur: u64 = n;
    let mut i: usize = w;
    proof {
        assert(pow8(0) == 1);
        assert(n as nat / 1 == n as nat);
        assert(v@.subrange(w as int, w as int) =~= Seq::<u8>::empty());
        assert(octal_digits(n as nat, w as nat) =~= octal_digits(cur as nat, w as nat) + v@.subrange(w as int, w as int));
    }
    while i > 0
        invariant
            i <= w,
            v@.len() == w,
            cur as nat == n as nat / pow8((w - i) as nat),
            octal_digits(n as nat, w as nat) == octal_digits(cur as nat, i as nat) + v@.subrange(i as int, w as int),
        decreases i,
    {
        let ghost old_v = v@;
        let ghost old_cur = cur;
        v.set(i - 1, 48 + (cur % 8) as u8);
        cur = cur / 8;
        i = i - 1;
        proof {
            let k = (w - i - 1) as nat;
            assert(pow8(k + 1) == pow8(k) * 8);
            lemma_pow8_pos(k);
            lemma_div_denominator(n as int, pow8(k) as int, 8);
            assert(v@.subrange(i as int, w as int) =~= seq![(48 + old_cur % 8) as u8] + old_v.subrange(i + 1, w as int));
            assert(octal_digits(old_cur as nat, (i + 1) as nat) == octal_digits(cur as nat, i as nat).push((48 + old_cur % 8) as u8));
            assert(octal_digits(n as nat, w as nat) =~= octal_digits(cur as nat, i as nat) + v@.subrange(i as int, w as int));
        }
    }
    assert(v@.subrange(0, w as int) =~= v@);
    assert(octal_digits(cur as nat, 0) =~= Seq::<u8>::empty());
    let ghost p: int = pow8(w as nat) as int;
    proof {
        lemma_pow8_pos(w as nat);
    }
    if cur == 0 {
        proof {
            lemma_fundamental_div_mod(n as int, p);
            assert(n < p) by (nonlinear_arith)
                requires
                    n as int == p * (n as int / p) + (n as int % p),
                    n as int / p == 0,
                    n as int % p < p,
            ;
        }
        Some(v)
    } else {
        proof {
            lemma_fundamental_div_mod(n as int, p);
            assert(n >= p) by (nonlinear_arith)
                requires
                    n as int == p * (n as int / p) + (n as int % p),
                    n as int / p >= 1,
                    n as int % p >= 0,
                    p > 0,
            ;
        }
        None
    }
}

} // verus!
