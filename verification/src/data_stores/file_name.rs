//! Names of database files: a number, padded to five digits, a dot and an extension.

use vstd::prelude::*;
use vstd::slice::slice_subrange;

verus! {

pub open spec fn is_digit(b: u8) -> bool {
    48 <= b <= 57
}

/// The number that a run of decimal digits stands for.
pub open spec fn digits_value(s: Seq<u8>) -> nat
    decreases s.len(),
{
    if s.len() == 0 {
        0
    } else {
        10 * digits_value(s.drop_last()) + (s.last() - 48) as nat
    }
}

pub open spec fn all_digits(s: Seq<u8>) -> bool {
    forall|i: int| 0 <= i < s.len() ==> is_digit(#[trigger] s[i])
}

/// The number up to `max` that a text denotes: digits, with an optional `+` before them.
pub open spec fn number_of(s: Seq<u8>, max: nat) -> Option<nat> {
    let digits = if s.len() > 0 && s[0] == 43 {
        s.skip(1)
    } else {
        s
    };
    if digits.len() > 0 && all_digits(digits) && digits_value(digits) <= max {
        Some(digits_value(digits))
    } else {
        None
    }
}

/// The shortest run of digits that stands for `n`.
pub open spec fn decimal(n: nat) -> Seq<u8>
    decreases n,
{
    if n < 10 {
        seq![(48 + n) as u8]
    } else {
        decimal(n / 10).push((48 + n % 10) as u8)
    }
}

/// The digits of `n`, with zeros before them up to a width of five.
pub open spec fn padded(n: nat) -> Seq<u8> {
    let d = decimal(n);
    if d.len() < 5 {
        Seq::new((5 - d.len()) as nat, |i: int| 48u8) + d
    } else {
        d
    }
}

/// `.mf`, `.wal`, `.sst`
pub open spec fn suffix_mf() -> Seq<u8> {
    seq![46u8, 109u8, 102u8]
}

pub open spec fn suffix_wal() -> Seq<u8> {
    seq![46u8, 119u8, 97u8, 108u8]
}

pub open spec fn suffix_sst() -> Seq<u8> {
    seq![46u8, 115u8, 115u8, 116u8]
}

/// The kinds of files of a database directory.
#[derive(Clone, Copy, Debug, PartialEq, Eq, Structural)]
pub enum FileKind {
    Manifest,
    Wal,
    Sstable,
}

impl FileKind {
    pub open spec fn suffix(self) -> Seq<u8> {
        match self {
            FileKind::Manifest => suffix_mf(),
            FileKind::Wal => suffix_wal(),
            FileKind::Sstable => suffix_sst(),
        }
    }

    /// The dot and the extension.
    pub fn suffix_bytes(self) -> (r: Vec<u8>)
        ensures
            r@ == self.suffix(),
    {
        match self {
            FileKind::Manifest => vec![46u8, 109u8, 102u8],
            FileKind::Wal => vec![46u8, 119u8, 97u8, 108u8],
            FileKind::Sstable => vec![46u8, 115u8, 115u8, 116u8],
        }
    }
}

proof fn lemma_digits_value_push(s: Seq<u8>, b: u8)
    ensures
        digits_value(s.push(b)) == 10 * digits_value(s) + (b - 48) as nat,
{
    assert(s.push(b).drop_last() =~= s);
}

proof fn lemma_decimal(n: nat)
    ensures
        decimal(n).len() > 0,
        all_digits(decimal(n)),
        digits_value(decimal(n)) == n,
    decreases n,
{
    reveal_with_fuel(digits_value, 2);
    if n < 10 {
        assert(decimal(n).drop_last() =~= Seq::<u8>::empty());
    } else {
        lemma_decimal(n / 10);
        lemma_digits_value_push(decimal(n / 10), (48 + n % 10) as u8);
    }
}

/// Zeros in front change no number.
proof fn lemma_leading_zeros(k: nat, d: Seq<u8>)
    ensures
        digits_value(Seq::new(k, |i: int| 48u8) + d) == digits_value(d),
    decreases d.len(), k,
{
    let z = Seq::new(k, |i: int| 48u8);
    let s = z + d;
    if d.len() > 0 {
        assert(s.drop_last() =~= z + d.drop_last());
        lemma_leading_zeros(k, d.drop_last());
    } else if k > 0 {
        let y = Seq::new((k - 1) as nat, |i: int| 48u8);
        assert(s.drop_last() =~= y + d);
        lemma_leading_zeros((k - 1) as nat, d);
    } else {
        assert(s =~= d);
    }
}

/// A padded number is digits.
pub proof fn lemma_padded_digits(n: nat)
    ensures
        padded(n).len() >= 5,
        all_digits(padded(n)),
{
    let d = decimal(n);
    lemma_decimal(n);
    let p = padded(n);
    assert forall|i: int| 0 <= i < p.len() implies is_digit(#[trigger] p[i]) by {
        if d.len() < 5 && i >= 5 - d.len() {
            assert(p[i] == d[i - (5 - d.len())]);
        }
    }
}

/// The number in a file's name is the number that it was named by.
pub proof fn lemma_padded_round_trip(n: nat, max: nat)
    requires
        n <= max,
    ensures
        number_of(padded(n), max) == Some(n),
{
    let d = decimal(n);
    lemma_decimal(n);
    if d.len() < 5 {
        lemma_leading_zeros((5 - d.len()) as nat, d);
    }
    lemma_padded_digits(n);
    assert(is_digit(padded(n)[0]));
}

/// A number is read digit by digit, each counting ten times the one behind it; it may have a
/// plus sign in front, and nothing else.
pub proof fn lemma_number(s: Seq<u8>, b: u8, max: nat)
    ensures
        number_of(Seq::empty(), max) is None,
        number_of(seq![43u8], max) is None,
        is_digit(b) ==> number_of(seq![b], max) == (if b - 48 <= max {
            Some((b - 48) as nat)
        } else {
            None
        }),
        is_digit(b) ==> (number_of(s, max) matches Some(n) ==> number_of(s.push(b), max) == (if 10
            * n + (b - 48) <= max {
            Some((10 * n + (b - 48)) as nat)
        } else {
            None
        })),
        !is_digit(b) ==> number_of(s.push(b), max) is None,
        s.len() > 0 && s[0] != 43 ==> number_of(seq![43u8] + s, max) == number_of(s, max),
        s.len() > 0 && s[0] == 43 ==> number_of(seq![43u8] + s, max) is None,
        number_of(s, max) matches Some(n) ==> n <= max,
{
    reveal_with_fuel(digits_value, 2);
    let more = s.push(b);
    assert(seq![43u8].skip(1) =~= Seq::<u8>::empty());
    assert(seq![b].drop_last() =~= Seq::<u8>::empty());
    assert((seq![43u8] + s).skip(1) =~= s);
    let signed = s.len() > 0 && s[0] == 43;
    let digits = if signed {
        s.skip(1)
    } else {
        s
    };
    if number_of(s, max) is Some && is_digit(b) {
        lemma_digits_value_push(digits, b);
        if signed {
            assert(more.skip(1) =~= digits.push(b));
        }
        assert forall|i: int| 0 <= i < digits.push(b).len() implies is_digit(
            #[trigger] digits.push(b)[i],
        ) by {
            if i < digits.len() {
                assert(is_digit(digits[i]));
            }
        }
    }
    if !is_digit(b) {
        if signed {
            assert(more.skip(1) =~= digits.push(b));
            assert(digits.push(b)[digits.len() as int] == b);
        } else {
            assert(more[s.len() as int] == b);
            if more[0] == 43 && s.len() == 0 {
                assert(more.skip(1) =~= Seq::<u8>::empty());
            }
        }
    }
    if signed {
        assert(!is_digit(s[0]));
    }
}

/// Longer runs of digits stand for no smaller numbers.
proof fn lemma_digits_value_monotonic(s: Seq<u8>, i: int)
    requires
        0 <= i <= s.len(),
    ensures
        digits_value(s.take(i)) <= digits_value(s),
    decreases s.len() - i,
{
    if i < s.len() {
        lemma_digits_value_monotonic(s, i + 1);
        assert(s.take(i + 1).drop_last() =~= s.take(i));
    } else {
        assert(s.take(i) =~= s);
    }
}

/// Reads a number as `str::parse` does for `u64`.
pub fn parse_u64(s: &[u8]) -> (r: Option<u64>)
    ensures
        match (r, number_of(s@, u64::MAX as nat)) {
            (Some(x), Some(n)) => x == n,
            (None, None) => true,
            _ => false,
        },
{
    let digits: &[u8] = if s.len() > 0 && s[0] == 43 {
        let d = slice_subrange(s, 1, s.len());
        assert(d@ =~= s@.skip(1));
        d
    } else {
        s
    };
    if digits.len() == 0 {
        return None;
    }
    let mut x: u64 = 0;
    let mut i: usize = 0;
    assert(digits@.take(0) =~= Seq::<u8>::empty());
    while i < digits.len()
        invariant
            i <= digits.len(),
            x == digits_value(digits@.take(i as int)),
            all_digits(digits@.take(i as int)),
            number_of(s@, u64::MAX as nat) == (if all_digits(digits@) && digits_value(digits@)
                <= u64::MAX {
                Some(digits_value(digits@))
            } else {
                None
            }),
        decreases digits.len() - i,
    {
        let b: u8 = digits[i];
        if b < 48 || b > 57 {
            assert(!is_digit(digits@[i as int]));
            return None;
        }
        let d: u64 = (b - 48) as u64;
        proof {
            assert(digits@.take(i + 1).drop_last() =~= digits@.take(i as int));
            lemma_digits_value_monotonic(digits@, i + 1);
        }
        if x > (u64::MAX - d) / 10 {
            return None;
        }
        x = 10 * x + d;
        i = i + 1;
    }
    assert(digits@.take(i as int) =~= digits@);
    Some(x)
}

/// Reads a number as `str::parse` does for `u32`.
pub fn parse_u32(s: &[u8]) -> (r: Option<u32>)
    ensures
        match (r, number_of(s@, u32::MAX as nat)) {
            (Some(x), Some(n)) => x == n,
            (None, None) => true,
            _ => false,
        },
{
    match parse_u64(s) {
        Some(x) => {
            if x <= u32::MAX as u64 {
                Some(x as u32)
            } else {
                None
            }
        },
        None => None,
    }
}

fn decimal_bytes(n: u32) -> (r: Vec<u8>)
    ensures
        r@ == decimal(n as nat),
    decreases n,
{
    if n < 10 {
        let r = vec![(48 + n) as u8];
        assert(r@ =~= decimal(n as nat));
        r
    } else {
        let mut r = decimal_bytes(n / 10);
        r.push((48 + n % 10) as u8);
        r
    }
}

/// The name of the file of a kind with a number, such as `00007.sst`.
pub open spec fn name_of(id: u32, kind: FileKind) -> Seq<u8> {
    padded(id as nat) + kind.suffix()
}

/// The name of a file ends in an extension by its kind, and before that there is nothing but
/// digits, at least five, which stand for its number.
pub proof fn lemma_name(id: u32, kind: FileKind)
    ensures
        ({
            let name = name_of(id, kind);
            let n = name.len() as int;
            let digits = match kind {
                FileKind::Manifest => n - 3,
                _ => n - 4,
            };
            &&& digits >= 5
            &&& forall|i: int| 0 <= i < digits ==> 48 <= #[trigger] name[i] <= 57
            &&& digits_value(name.take(digits)) == id
            &&& name[digits] == 46
            &&& kind is Manifest ==> name[n - 2] == 109 && name[n - 1] == 102
            &&& kind is Wal ==> name[n - 3] == 119 && name[n - 2] == 97 && name[n - 1] == 108
            &&& kind is Sstable ==> name[n - 3] == 115 && name[n - 2] == 115 && name[n - 1] == 116
            &&& digits > 5 ==> name[0] != 48
        }),
{
    let p = padded(id as nat);
    let name = name_of(id, kind);
    lemma_padded_digits(id as nat);
    lemma_padded_round_trip(id as nat, u32::MAX as nat);
    assert(is_digit(p[0]));
    assert(name.take(p.len() as int) =~= p);
    assert forall|i: int| 0 <= i < p.len() implies 48 <= #[trigger] name[i] <= 57 by {
        assert(is_digit(p[i]));
    }
    lemma_no_leading_zero(id as nat);
}

proof fn lemma_no_leading_zero(n: nat)
    ensures
        n > 0 ==> decimal(n)[0] != 48,
        decimal(n).len() > 0,
        n == 0 ==> decimal(n).len() == 1,
    decreases n,
{
    if n >= 10 {
        lemma_no_leading_zero(n / 10);
    }
}

/// No two files have the same name: neither two of one kind nor two of different kinds.
pub proof fn lemma_names_differ(a: u32, kind_a: FileKind, b: u32, kind_b: FileKind)
    requires
        name_of(a, kind_a) == name_of(b, kind_b),
    ensures
        a == b,
        kind_a == kind_b,
{
    lemma_name(a, kind_a);
    lemma_name(b, kind_b);
}

pub fn file_name(id: u32, kind: FileKind) -> (r: Vec<u8>)
    ensures
        r@ == name_of(id, kind),
{
    let digits = decimal_bytes(id);
    let mut r: Vec<u8> = Vec::new();
    let len: usize = digits.len();
    if len < 5 {
        r.resize(5 - len, 48u8);
        assert(r@ =~= Seq::new((5 - len) as nat, |i: int| 48u8));
    }
    r.extend_from_slice(digits.as_slice());
    assert(r@ =~= padded(id as nat));
    r.extend_from_slice(kind.suffix_bytes().as_slice());
    r
}

// --- Taking names apart ---

/// The place of the last dot.
pub open spec fn last_dot(name: Seq<u8>) -> int
    decreases name.len(),
{
    if name.len() == 0 {
        -1
    } else if name.last() == 46 {
        name.len() - 1
    } else {
        last_dot(name.drop_last())
    }
}

/// A name without its extension, and the extension: what follows the last dot, unless the
/// name only starts with that dot.
pub open spec fn split_name(name: Seq<u8>) -> (Seq<u8>, Option<Seq<u8>>) {
    let p = last_dot(name);
    if p <= 0 {
        (name, None)
    } else {
        (name.take(p), Some(name.skip(p + 1)))
    }
}

proof fn lemma_last_dot(name: Seq<u8>, p: int)
    requires
        0 <= p < name.len(),
        name[p] == 46,
        forall|i: int| p < i < name.len() ==> name[i] != 46,
    ensures
        last_dot(name) == p,
    decreases name.len(),
{
    if name.last() != 46 {
        lemma_last_dot(name.drop_last(), p);
    }
}

proof fn lemma_no_dot(name: Seq<u8>)
    requires
        forall|i: int| 0 <= i < name.len() ==> name[i] != 46,
    ensures
        last_dot(name) == -1,
    decreases name.len(),
{
    if name.len() > 0 {
        lemma_no_dot(name.drop_last());
    }
}

/// The version in the name of a manifest: digits before the extension `mf`.
pub open spec fn manifest_version_of(name: Seq<u8>) -> Option<nat> {
    match split_name(name) {
        (stem, Some(ext)) => if ext == seq![109u8, 102u8] {
            number_of(stem, u32::MAX as nat)
        } else {
            None
        },
        (_, None) => None,
    }
}

/// A manifest is found under the version that it was named by.
pub proof fn lemma_manifest_name(version: u32)
    ensures
        manifest_version_of(name_of(version, FileKind::Manifest)) == Some(version as nat),
{
    let name = name_of(version, FileKind::Manifest);
    let p = padded(version as nat);
    lemma_decimal(version as nat);
    lemma_padded_round_trip(version as nat, u32::MAX as nat);
    lemma_last_dot(name, p.len() as int);
    assert(name.take(p.len() as int) =~= p);
    assert(name.skip((p.len() + 1) as int) =~= seq![109u8, 102u8]);
}

/// Only a name of digits and `.mf` is that of a manifest; the version is what the digits stand
/// for.
pub proof fn lemma_manifest_version(name: Seq<u8>)
    ensures
        manifest_version_of(name) matches Some(v) ==> {
            let n = name.len() as int;
            &&& n >= 4
            &&& name[n - 3] == 46
            &&& name[n - 2] == 109
            &&& name[n - 1] == 102
            &&& number_of(name.take(n - 3), u32::MAX as nat) == Some(v)
        },
{
    if manifest_version_of(name) is Some {
        lemma_dot(name);
        let p = last_dot(name);
        let ext = name.skip(p + 1);
        assert(ext.len() == 2);
        assert(ext[0] == name[p + 1] && ext[1] == name[p + 2]);
    }
}

proof fn lemma_dot(name: Seq<u8>)
    ensures
        last_dot(name) < name.len(),
        last_dot(name) >= 0 ==> name[last_dot(name)] == 46,
    decreases name.len(),
{
    if name.len() > 0 && name.last() != 46 {
        lemma_dot(name.drop_last());
    }
}

/// The version in the name of a manifest, if it is the name of one.
pub fn manifest_version(name: &[u8]) -> (r: Option<u32>)
    ensures
        match (r, manifest_version_of(name@)) {
            (Some(x), Some(n)) => x == n,
            (None, None) => true,
            _ => false,
        },
{
    let len: usize = name.len();
    let mut i: usize = len;
    while i > 0 && name[i - 1] != 46
        invariant
            i <= len,
            len == name.len(),
            forall|j: int| i <= j < len ==> name@[j] != 46,
        decreases i,
    {
        i = i - 1;
    }
    if i == 0 {
        proof {
            lemma_no_dot(name@);
        }
        return None;
    }
    proof {
        lemma_last_dot(name@, i - 1);
    }
    if i == 1 {
        return None;
    }
    let ghost ext = name@.skip(i as int);
    if len - i == 2 && name[i] == 109 && name[i + 1] == 102 {
        let stem = slice_subrange(name, 0, i - 1);
        assert(stem@ =~= name@.take(i - 1));
        assert(ext =~= seq![109u8, 102u8]);
        parse_u32(stem)
    } else {
        proof {
            if ext == seq![109u8, 102u8] {
                assert(ext.len() == 2);
                assert(ext[0] == name@[i as int] && ext[1] == name@[i + 1]);
            }
        }
        None
    }
}

} // verus!
