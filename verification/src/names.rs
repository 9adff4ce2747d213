//! Names of persisted tile files, and the fetch URL path.
//!
//! A tile's layers are persisted under names that encode the address as
//! `{y}-{x}.jpg` (base imagery) or `{y}-{x}.png` (outlines), with both
//! numbers in canonical decimal (no leading zeros, no signs). Loading
//! tolerates only these two shapes; anything else is a parse error, which
//! callers treat as fatal.

use vstd::prelude::*;
use vstd::arithmetic::div_mod::lemma_fundamental_div_mod;

verus! {

/// The byte `'-'`.
pub const DASH: u8 = 0x2d;
/// The byte `'0'`.
pub const DIGIT_ZERO: u8 = 0x30;

/// Which persisted layer a file name belongs to.
#[derive(Clone, Copy, Debug, PartialEq, Eq, Structural)]
pub enum FileKind {
    BaseJpg,
    OutlinePng,
}

/// The extension bytes of a file kind: `.jpg` or `.png`.
pub open spec fn ext_of(kind: FileKind) -> Seq<u8> {
    match kind {
        FileKind::BaseJpg => seq![0x2eu8, 0x6au8, 0x70u8, 0x67u8],
        FileKind::OutlinePng => seq![0x2eu8, 0x70u8, 0x6eu8, 0x67u8],
    }
}

pub fn ext_vec(kind: FileKind) -> (r: Vec<u8>)
    ensures
        r@ == ext_of(kind),
{
    let mut v: Vec<u8> = Vec::new();
    v.push(0x2e);
    match kind {
        FileKind::BaseJpg => {
            v.push(0x6a);
            v.push(0x70);
            v.push(0x67);
        },
        FileKind::OutlinePng => {
            v.push(0x70);
            v.push(0x6e);
            v.push(0x67);
        },
    }
    proof {
        assert(v@ =~= ext_of(kind));
    }
    v
}

pub open spec fn is_dec_digit(b: u8) -> bool {
    0x30 <= b <= 0x39
}

pub open spec fn all_digits(s: Seq<u8>) -> bool {
    forall|i: int| 0 <= i < s.len() ==> is_dec_digit(#[trigger] s[i])
}

/// The canonical decimal rendering of a nonnegative number.
pub open spec fn dec_rep(n: int) -> Seq<u8>
    decreases n,
{
    if n <= 9 {
        seq![(0x30 + if 0 <= n { n } else { 0 }) as u8]
    } else {
        dec_rep(n / 10).push((0x30 + n % 10) as u8)
    }
}

/// The number a digit string denotes.
pub open spec fn dec_val(s: Seq<u8>) -> int
    decreases s.len(),
{
    if s.len() == 0 {
        0
    } else {
        dec_val(s.drop_last()) * 10 + (s.last() - 0x30)
    }
}

/// No leading zero, except for the single digit `0` itself.
pub open spec fn canonical_digits(s: Seq<u8>) -> bool {
    &&& s.len() >= 1
    &&& all_digits(s)
    &&& (s[0] != DIGIT_ZERO || s.len() == 1)
}

/// `dec_rep` produces canonical digits denoting the number itself.
pub proof fn lemma_dec_rep_canonical(n: int)
    requires
        0 <= n,
    ensures
        canonical_digits(dec_rep(n)),
        dec_val(dec_rep(n)) == n,
        n <= 9 ==> dec_rep(n).len() == 1,
        n > 9 ==> dec_rep(n).len() >= 2,
    decreases n,
{
    if n <= 9 {
        assert(dec_rep(n) =~= seq![(0x30 + n) as u8]);
        assert(dec_rep(n).drop_last() =~= Seq::<u8>::empty());
        assert(dec_val(Seq::<u8>::empty()) == 0);
        assert(dec_val(dec_rep(n)) == dec_val(dec_rep(n).drop_last()) * 10 + (dec_rep(n).last()
            - 0x30));
    } else {
        lemma_fundamental_div_mod(n, 10);
        lemma_dec_rep_canonical(n / 10);
        let s = dec_rep(n);
        let p = dec_rep(n / 10);
        assert(s == p.push((0x30 + n % 10) as u8));
        assert(s.drop_last() =~= p);
        assert(s[0] == p[0]);
        assert(n / 10 >= 1) by {
            lemma_fundamental_div_mod(n, 10);
        }
        assert(p[0] != DIGIT_ZERO || p.len() == 1);
        if p.len() == 1 {
            // p == dec_rep(n / 10) with 1 <= n / 10 <= 9, so p[0] > '0'.
            assert(n / 10 <= 9 ==> p == seq![(0x30 + n / 10) as u8]);
            assert(n / 10 > 9 ==> p.len() >= 2);
            assert(p[0] != DIGIT_ZERO);
        }
        assert(dec_val(s) == dec_val(p) * 10 + (n % 10));
    }
}

/// Canonical digits are uniquely decoded: a canonical digit string whose
/// value is `n` is exactly `dec_rep(n)`.
pub proof fn lemma_canonical_digits_unique(s: Seq<u8>)
    requires
        canonical_digits(s),
    ensures
        dec_val(s) >= 0,
        s =~= dec_rep(dec_val(s)),
        s[0] != DIGIT_ZERO ==> dec_val(s) >= 1,
        s.len() >= 2 ==> dec_val(s) >= 10,
    decreases s.len(),
{
    if s.len() == 1 {
        assert(s.drop_last() =~= Seq::<u8>::empty());
        assert(dec_val(Seq::<u8>::empty()) == 0);
        assert(s.last() == s[0]);
        assert(dec_val(s) == s[0] - 0x30);
        assert(dec_rep(dec_val(s)) =~= seq![s[0]]);
        assert(s =~= seq![s[0]]);
    } else {
        let p = s.drop_last();
        assert(canonical_digits(p)) by {
            assert(forall|i: int| 0 <= i < p.len() ==> p[i] == s[i]);
        }
        lemma_canonical_digits_unique(p);
        let v = dec_val(s);
        assert(v == dec_val(p) * 10 + (s.last() - 0x30));
        // s is canonical with length >= 2, so its first digit is nonzero,
        // hence dec_val(p) >= 1 and v >= 10.
        assert(p[0] == s[0] && p[0] != DIGIT_ZERO);
        assert(dec_val(p) >= 1);
        assert(v >= 10);
        lemma_fundamental_div_mod(v, 10);
        assert(v / 10 == dec_val(p) && v % 10 == s.last() - 0x30) by {
            assert(v == 10 * dec_val(p) + (s.last() - 0x30));
            assert(0 <= s.last() - 0x30 < 10);
            vstd::arithmetic::div_mod::lemma_fundamental_div_mod_converse(
                v, 10, dec_val(p), s.last() - 0x30);
        }
        assert(dec_rep(v) == dec_rep(v / 10).push((0x30 + v % 10) as u8));
        assert(s =~= p.push(s.last()));
    }
}

/// Append the canonical decimal rendering of `n`.
pub fn push_dec(out: &mut Vec<u8>, n: u32)
    ensures
        final(out)@ == old(out)@ + dec_rep(n as int),
    decreases n,
{
    if n <= 9 {
        out.push(0x30 + n as u8);
        proof {
            assert(out@ =~= old(out)@ + dec_rep(n as int));
        }
    } else {
        push_dec(out, n / 10);
        out.push(0x30 + (n % 10) as u8);
        proof {
            assert(out@ =~= old(out)@ + dec_rep(n as int));
        }
    }
}

/// The canonical decimal rendering of `n`, as bytes.
pub fn u32_to_dec(n: u32) -> (r: Vec<u8>)
    ensures
        r@ == dec_rep(n as int),
{
    let mut v: Vec<u8> = Vec::new();
    push_dec(&mut v, n);
    proof {
        assert(v@ =~= dec_rep(n as int));
    }
    v
}

/// The persisted file name of a tile layer: `{y}-{x}` and the extension.
/// The vertical index comes first, as the provider's tile scheme orders it.
pub open spec fn tile_name_of(y: int, x: int, kind: FileKind) -> Seq<u8> {
    dec_rep(y) + seq![DASH] + dec_rep(x) + ext_of(kind)
}

/// Render the persisted file name for a tile address.
pub fn make_tile_name(y: u32, x: u32, kind: FileKind) -> (r: Vec<u8>)
    ensures
        r@ == tile_name_of(y as int, x as int, kind),
{
    let mut v = u32_to_dec(y);
    v.push(DASH);
    push_dec(&mut v, x);
    let ext = ext_vec(kind);
    let mut i: usize = 0;
    while i < ext.len()
        invariant
            0 <= i <= ext.len(),
            v@ == dec_rep(y as int) + seq![DASH] + dec_rep(x as int) + ext@.subrange(0, i as int),
            ext@ == ext_of(kind),
        decreases ext.len() - i,
    {
        let b = ext[i];
        v.push(b);
        proof {
            assert(v@ =~= dec_rep(y as int) + seq![DASH] + dec_rep(x as int) + ext@.subrange(
                0, i as int + 1));
        }
        i += 1;
    }
    proof {
        assert(ext@.subrange(0, ext@.len() as int) =~= ext@);
        assert(v@ =~= tile_name_of(y as int, x as int, kind));
    }
    v
}

/// A persisted file name that does not have the `{y}-{x}.{ext}` shape.
/// Loading treats this as fatal.
#[derive(Clone, Copy, Debug, PartialEq, Eq, Structural)]
pub enum NameError {
    PersistedNameParse,
}

/// Digit strings denote nonnegative numbers.
pub proof fn lemma_dec_val_nonneg(s: Seq<u8>)
    requires
        all_digits(s),
    ensures
        dec_val(s) >= 0,
    decreases s.len(),
{
    if s.len() > 0 {
        let p = s.drop_last();
        assert(all_digits(p)) by {
            assert(forall|i: int| 0 <= i < p.len() ==> p[i] == s[i]);
        }
        lemma_dec_val_nonneg(p);
    }
}

/// Parse the byte range `[from, to)` as a canonical decimal `u32`.
/// Succeeds exactly on the strings `dec_rep` produces for a `u32`.
pub fn parse_canonical_u32(s: &Vec<u8>, from: usize, to: usize) -> (r: Option<u32>)
    requires
        from <= to <= s@.len(),
    ensures
        match r {
            Some(v) => s@.subrange(from as int, to as int) == dec_rep(v as int),
            None => forall|v: u32| s@.subrange(from as int, to as int) != dec_rep(v as int),
        },
{
    let ghost seg = s@.subrange(from as int, to as int);
    proof {
        assert forall|v: u32| canonical_digits(dec_rep(v as int)) && dec_val(dec_rep(v as int))
            == v as int by {
            lemma_dec_rep_canonical(v as int);
        }
    }
    if from == to {
        return None;
    }
    if s[from] == DIGIT_ZERO && to - from > 1 {
        return None;
    }
    let mut acc: u64 = 0;
    let mut i = from;
    while i < to
        invariant
            from <= i <= to <= s@.len(),
            seg == s@.subrange(from as int, to as int),
            all_digits(s@.subrange(from as int, i as int)),
            acc <= 0x1_0000_0000,
            dec_val(s@.subrange(from as int, i as int)) <= u32::MAX ==> acc == dec_val(
                s@.subrange(from as int, i as int)),
            dec_val(s@.subrange(from as int, i as int)) > u32::MAX ==> acc == 0x1_0000_0000,
            dec_val(s@.subrange(from as int, i as int)) >= 0,
        decreases to - i,
    {
        let b = s[i];
        if b < 0x30 || b > 0x39 {
            proof {
                assert(seg[i - from] == b);
                assert forall|v: u32| seg != dec_rep(v as int) by {
                    if seg == dec_rep(v as int) {
                        lemma_dec_rep_canonical(v as int);
                        assert(is_dec_digit(seg[i - from]));
                    }
                }
            }
            return None;
        }
        let ghost pref = s@.subrange(from as int, i as int);
        let ghost pref2 = s@.subrange(from as int, i as int + 1);
        proof {
            assert(pref2 =~= pref.push(b));
            assert(pref2.drop_last() =~= pref);
            assert(dec_val(pref2) == dec_val(pref) * 10 + (b - 0x30));
        }
        let d = (b - 0x30) as u64;
        let next = acc * 10 + d;
        if next > u32::MAX as u64 {
            acc = 0x1_0000_0000;
        } else {
            acc = next;
        }
        i += 1;
    }
    proof {
        assert(s@.subrange(from as int, i as int) == seg);
    }
    if acc > u32::MAX as u64 {
        proof {
            assert forall|v: u32| seg != dec_rep(v as int) by {
                if seg == dec_rep(v as int) {
                    lemma_dec_rep_canonical(v as int);
                    assert(dec_val(seg) == v as int);
                }
            }
        }
        None
    } else {
        proof {
            assert(canonical_digits(seg));
            lemma_canonical_digits_unique(seg);
            assert(seg =~= dec_rep(acc as int));
        }
        Some(acc as u32)
    }
}

/// Parse a persisted file name of the given kind back into its `(y, x)`
/// tile indices. Succeeds exactly on the names `make_tile_name` produces:
/// canonical decimal `y`, a dash, canonical decimal `x`, the extension.
pub fn parse_tile_name(s: &Vec<u8>, kind: FileKind) -> (r: Result<(u32, u32), NameError>)
    ensures
        match r {
            Ok(p) => s@ == tile_name_of(p.0 as int, p.1 as int, kind),
            Err(_) => forall|y: u32, x: u32| s@ != tile_name_of(y as int, x as int, kind),
        },
{
    let n = s.len();
    if n < 7 {
        proof {
            assert forall|y: u32, x: u32| s@ != tile_name_of(y as int, x as int, kind) by {
                lemma_dec_rep_canonical(y as int);
                lemma_dec_rep_canonical(x as int);
                assert(tile_name_of(y as int, x as int, kind).len() >= 7);
            }
        }
        return Err(NameError::PersistedNameParse);
    }
    let ext = ext_vec(kind);
    let limit = n - 4;
    // The extension must match byte for byte.
    let mut k: usize = 0;
    while k < 4
        invariant
            0 <= k <= 4,
            n == s@.len(),
            7 <= n,
            limit == n - 4,
            ext@ == ext_of(kind),
            forall|t: int| 0 <= t < k ==> s@[limit + t] == ext@[t],
        decreases 4 - k,
    {
        if s[limit + k] != ext[k] {
            proof {
                lemma_name_shape(s@, kind);
                assert forall|y: u32, x: u32| s@ != tile_name_of(y as int, x as int, kind) by {
                    if s@ == tile_name_of(y as int, x as int, kind) {
                        assert(s@[limit + k] == ext_of(kind)[k as int]);
                    }
                }
            }
            return Err(NameError::PersistedNameParse);
        }
        k += 1;
    }
    // Find the first dash before the extension.
    let mut j: usize = 0;
    while j < limit && s[j] != DASH
        invariant
            0 <= j <= limit,
            limit == n - 4 <= s@.len(),
            forall|t: int| 0 <= t < j ==> s@[t] != DASH,
        decreases limit - j,
    {
        j += 1;
    }
    if j == limit {
        proof {
            lemma_name_shape(s@, kind);
            assert forall|y: u32, x: u32| s@ != tile_name_of(y as int, x as int, kind) by {
                if s@ == tile_name_of(y as int, x as int, kind) {
                    let a = dec_rep(y as int);
                    let b = dec_rep(x as int);
                    assert(a.len() < limit);
                    assert(s@[a.len() as int] == DASH);
                    assert(s@[a.len() as int] != DASH);
                }
            }
        }
        return Err(NameError::PersistedNameParse);
    }
    let y = match parse_canonical_u32(s, 0, j) {
        Some(v) => v,
        None => {
            proof {
                lemma_name_shape(s@, kind);
                assert forall|y0: u32, x0: u32| s@ != tile_name_of(
                    y0 as int, x0 as int, kind) by {
                    if s@ == tile_name_of(y0 as int, x0 as int, kind) {
                        let a = dec_rep(y0 as int);
                        lemma_first_dash_is_prefix_len(s@, a.len() as int, j as int);
                        assert(s@.subrange(0, j as int) == a);
                    }
                }
            }
            return Err(NameError::PersistedNameParse);
        },
    };
    let x = match parse_canonical_u32(s, j + 1, limit) {
        Some(v) => v,
        None => {
            proof {
                lemma_name_shape(s@, kind);
                assert forall|y0: u32, x0: u32| s@ != tile_name_of(
                    y0 as int, x0 as int, kind) by {
                    if s@ == tile_name_of(y0 as int, x0 as int, kind) {
                        let a = dec_rep(y0 as int);
                        let b = dec_rep(x0 as int);
                        lemma_first_dash_is_prefix_len(s@, a.len() as int, j as int);
                        assert(s@.subrange(j as int + 1, limit as int) == b);
                    }
                }
            }
            return Err(NameError::PersistedNameParse);
        },
    };
    proof {
        assert(s@ =~= s@.subrange(0, j as int) + seq![DASH] + s@.subrange(
            j as int + 1, limit as int) + ext_of(kind)) by {
            assert(forall|t: int| 0 <= t < 4 ==> s@[limit + t] == ext_of(kind)[t]);
            assert(s@[j as int] == DASH);
        }
        assert(s@ == tile_name_of(y as int, x as int, kind));
    }
    Ok((y, x))
}

/// Two positions that are both the first dash of a string coincide.
proof fn lemma_first_dash_is_prefix_len(s: Seq<u8>, alen: int, j: int)
    requires
        0 <= alen < s.len(),
        0 <= j < s.len(),
        s[alen] == DASH,
        forall|t: int| 0 <= t < alen ==> s[t] != DASH,
        s[j] == DASH,
        forall|t: int| 0 <= t < j ==> s[t] != DASH,
    ensures
        j == alen,
{
}

/// The structure a well-shaped name imposes: its first dash sits right
/// after the digits of `y`, the digits of `x` fill the middle, and the
/// extension ends it. Stated for every `(y, x)` so that a parse failure
/// at any stage refutes every candidate shape.
proof fn lemma_name_shape(s: Seq<u8>, kind: FileKind)
    ensures
        forall|y: u32, x: u32| s == tile_name_of(y as int, x as int, kind) ==> {
            let a = dec_rep(y as int);
            let b = dec_rep(x as int);
            &&& s.len() == a.len() + 1 + b.len() + 4 >= 7
            &&& s.subrange(0, a.len() as int) == a
            &&& s[a.len() as int] == DASH
            &&& s.subrange(a.len() as int + 1, s.len() as int - 4) == b
            &&& (forall|t: int| 0 <= t < 4 ==> s[s.len() - 4 + t] == ext_of(kind)[t])
            &&& (forall|t: int| 0 <= t < a.len() ==> s[t] != DASH)
            &&& canonical_digits(a)
            &&& canonical_digits(b)
        },
{
    assert forall|y: u32, x: u32| s == tile_name_of(y as int, x as int, kind) implies {
        let a = dec_rep(y as int);
        let b = dec_rep(x as int);
        &&& s.len() == a.len() + 1 + b.len() + 4 >= 7
        &&& s.subrange(0, a.len() as int) == a
        &&& s[a.len() as int] == DASH
        &&& s.subrange(a.len() as int + 1, s.len() as int - 4) == b
        &&& (forall|t: int| 0 <= t < 4 ==> s[s.len() - 4 + t] == ext_of(kind)[t])
        &&& (forall|t: int| 0 <= t < a.len() ==> s[t] != DASH)
        &&& canonical_digits(a)
        &&& canonical_digits(b)
    } by {
        lemma_dec_rep_canonical(y as int);
        lemma_dec_rep_canonical(x as int);
        let a = dec_rep(y as int);
        let b = dec_rep(x as int);
        assert(s.subrange(0, a.len() as int) =~= a);
        assert(s.subrange(a.len() as int + 1, s.len() as int - 4) =~= b);
        assert(forall|t: int| 0 <= t < a.len() ==> is_dec_digit(#[trigger] s[t]));
    }
}

/// A well-shaped name decodes to exactly one index pair: the first dash
/// ends the `y` digits, and canonical digit strings denote distinct
/// numbers.
pub proof fn lemma_tile_name_injective(y: int, x: int, kind: FileKind)
    requires
        0 <= y,
        0 <= x,
    ensures
        forall|y2: u32, x2: u32|
            tile_name_of(y, x, kind) == tile_name_of(y2 as int, x2 as int, kind) ==> y2 as int
                == y && x2 as int == x,
{
    assert forall|y2: u32, x2: u32|
        tile_name_of(y, x, kind) == tile_name_of(y2 as int, x2 as int, kind) implies y2 as int
        == y && x2 as int == x by {
        if tile_name_of(y, x, kind) == tile_name_of(y2 as int, x2 as int, kind) {
            let s = tile_name_of(y, x, kind);
            let a1 = dec_rep(y);
            let b1 = dec_rep(x);
            let a2 = dec_rep(y2 as int);
            let b2 = dec_rep(x2 as int);
            lemma_dec_rep_canonical(y);
            lemma_dec_rep_canonical(x);
            lemma_dec_rep_canonical(y2 as int);
            lemma_dec_rep_canonical(x2 as int);
            assert(s[a1.len() as int] == DASH);
            assert(forall|t: int| 0 <= t < a1.len() ==> is_dec_digit(#[trigger] s[t]));
            assert(s[a2.len() as int] == DASH);
            assert(forall|t: int| 0 <= t < a2.len() ==> is_dec_digit(#[trigger] s[t]));
            lemma_first_dash_is_prefix_len(s, a1.len() as int, a2.len() as int);
            assert(s.subrange(0, a1.len() as int) =~= a1);
            assert(s.subrange(0, a2.len() as int) =~= a2);
            assert(a1 == a2);
            assert(dec_val(a1) == y && dec_val(a2) == y2 as int);
            assert(s.subrange(a1.len() as int + 1, s.len() as int - 4) =~= b1);
            assert(s.subrange(a2.len() as int + 1, s.len() as int - 4) =~= b2);
            assert(b1 == b2);
            assert(dec_val(b1) == x && dec_val(b2) == x2 as int);
        }
    }
}

/// The provider URL path for a tile: `{base}/{zoom}/{y}/{x}`. The path
/// ordering zoom, then y, then x is the provider's and must be kept.
pub open spec fn url_path_of(base: Seq<u8>, zoom: int, y: int, x: int) -> Seq<u8> {
    base + seq![0x2fu8] + dec_rep(zoom) + seq![0x2fu8] + dec_rep(y) + seq![0x2fu8] + dec_rep(x)
}

/// Render the fetch URL path for a tile under the given provider base.
pub fn make_url_path(base: &Vec<u8>, zoom: u8, y: u32, x: u32) -> (r: Vec<u8>)
    ensures
        r@ == url_path_of(base@, zoom as int, y as int, x as int),
{
    let mut v: Vec<u8> = Vec::new();
    let mut i: usize = 0;
    while i < base.len()
        invariant
            0 <= i <= base.len(),
            v@ == base@.subrange(0, i as int),
        decreases base.len() - i,
    {
        let b = base[i];
        v.push(b);
        proof {
            assert(v@ =~= base@.subrange(0, i as int + 1));
        }
        i += 1;
    }
    proof {
        assert(base@.subrange(0, base@.len() as int) =~= base@);
    }
    v.push(0x2f);
    push_dec(&mut v, zoom as u32);
    v.push(0x2f);
    push_dec(&mut v, y);
    v.push(0x2f);
    push_dec(&mut v, x);
    proof {
        assert(v@ =~= url_path_of(base@, zoom as int, y as int, x as int));
    }
    v
}

} // verus!
