//! Byte encodings for everything the store persists.
//!
//! Every on-disk artifact of the store — the index file, the key file and
//! each secret file — is a fixed, length-prefixed binary layout built from
//! two primitives: a little-endian `u64` and a character written as the
//! `u64` value of its Unicode scalar. This module defines the layouts as
//! spec functions (`enc_*`), gives each a total decoder (`dec_*`) that
//! rejects malformed bytes, proves that decoding an encoding recovers
//! exactly what was encoded, and provides the executable readers and
//! writers that implement them.

use vstd::bytes::{
    lemma_auto_spec_u64_to_from_le_bytes, spec_u64_from_le_bytes, spec_u64_to_le_bytes,
    u64_from_le_bytes, u64_to_le_bytes,
};
use vstd::prelude::*;
use vstd::slice::{slice_subrange, slice_to_vec};
use vstd::utf8::{char_is_scalar, char_u32_cast, is_scalar};

verus! {

// ---------------------------------------------------------------------------
// u64 primitive
// ---------------------------------------------------------------------------
/// The eight little-endian bytes of `v`.
pub open spec fn enc_u64(v: u64) -> Seq<u8> {
    spec_u64_to_le_bytes(v)
}

/// Reads a `u64` at offset `i`, returning the value and the offset just past it.
pub open spec fn dec_u64_at(b: Seq<u8>, i: int) -> Option<(u64, int)> {
    if 0 <= i && i + 8 <= b.len() {
        Some((spec_u64_from_le_bytes(b.subrange(i, i + 8)), i + 8))
    } else {
        None
    }
}

pub proof fn lemma_enc_u64_len(v: u64)
    ensures
        enc_u64(v).len() == 8,
{
    lemma_auto_spec_u64_to_from_le_bytes();
}

pub proof fn lemma_dec_u64_at(b: Seq<u8>, i: int, v: u64)
    requires
        0 <= i,
        i + 8 <= b.len(),
        b.subrange(i, i + 8) == enc_u64(v),
    ensures
        dec_u64_at(b, i) == Some((v, i + 8)),
{
    lemma_auto_spec_u64_to_from_le_bytes();
}

/// Appends the encoding of `v` to `out`.
pub fn push_u64(out: &mut Vec<u8>, v: u64)
    ensures
        final(out)@ == old(out)@ + enc_u64(v),
{
    let mut bytes = u64_to_le_bytes(v);
    out.append(&mut bytes);
}

/// Appends a copy of `b` to `out`.
pub fn push_bytes(out: &mut Vec<u8>, b: &[u8])
    ensures
        final(out)@ == old(out)@ + b@,
{
    let mut copy = slice_to_vec(b);
    out.append(&mut copy);
}

/// Reads a `u64` at `pos`, as `dec_u64_at` describes.
pub fn read_u64(b: &[u8], pos: usize) -> (r: Option<(u64, usize)>)
    ensures
        match r {
            Some((v, p)) => dec_u64_at(b@, pos as int) == Some((v, p as int)),
            None => dec_u64_at(b@, pos as int) is None,
        },
{
    if pos <= b.len() && b.len() - pos >= 8 {
        let v = u64_from_le_bytes(slice_subrange(b, pos, pos + 8));
        Some((v, pos + 8))
    } else {
        None
    }
}

// ---------------------------------------------------------------------------
// Characters and strings
// ---------------------------------------------------------------------------
/// The Unicode scalar value of `c`, as a `u64`.
pub open spec fn scalar_val(c: char) -> u64 {
    (c as u32) as u64
}

/// Whether `v` is the value of a Unicode scalar, i.e. of a `char`.
pub open spec fn is_scalar_value(v: u64) -> bool {
    v < 0xD800 || (0xE000 <= v && v < 0x110000)
}

/// The `char` whose scalar value is `v`.
pub open spec fn char_of(v: u64) -> char
    recommends
        is_scalar_value(v),
{
    (v as u32) as char
}

/// Every `char` encodes, and decodes back to itself.
pub proof fn lemma_char_scalar(c: char)
    ensures
        is_scalar_value(scalar_val(c)),
        char_of(scalar_val(c)) == c,
{
    char_is_scalar(c);
    char_u32_cast(c, c as u32);
}

/// Each character of a string, one after the other.
pub open spec fn enc_chars(s: Seq<char>) -> Seq<u8>
    decreases s.len(),
{
    if s.len() == 0 {
        Seq::empty()
    } else {
        enc_u64(scalar_val(s[0])) + enc_chars(s.skip(1))
    }
}

/// A string: its character count, then its characters.
pub open spec fn enc_str(s: Seq<char>) -> Seq<u8> {
    enc_u64(s.len() as u64) + enc_chars(s)
}

/// Reads `n` characters at offset `i`.
pub open spec fn dec_chars_at(b: Seq<u8>, i: int, n: nat) -> Option<(Seq<char>, int)>
    decreases n,
{
    if n == 0 {
        Some((Seq::empty(), i))
    } else {
        match dec_u64_at(b, i) {
            Some((v, j)) => {
                if is_scalar_value(v) {
                    match dec_chars_at(b, j, (n - 1) as nat) {
                        Some((s, k)) => Some((seq![char_of(v)] + s, k)),
                        None => None,
                    }
                } else {
                    None
                }
            },
            None => None,
        }
    }
}

/// Reads a length-prefixed string at offset `i`.
pub open spec fn dec_str_at(b: Seq<u8>, i: int) -> Option<(Seq<char>, int)> {
    match dec_u64_at(b, i) {
        Some((n, j)) => dec_chars_at(b, j, n as nat),
        None => None,
    }
}

pub proof fn lemma_enc_chars_len(s: Seq<char>)
    ensures
        enc_chars(s).len() == 8 * s.len(),
    decreases s.len(),
{
    if s.len() > 0 {
        lemma_enc_u64_len(scalar_val(s[0]));
        lemma_enc_chars_len(s.skip(1));
    }
}

/// Appending one character extends the character encoding at its end.
pub proof fn lemma_enc_chars_push(s: Seq<char>, c: char)
    ensures
        enc_chars(s.push(c)) == enc_chars(s) + enc_u64(scalar_val(c)),
    decreases s.len(),
{
    if s.len() == 0 {
        lemma_enc_u64_len(scalar_val(c));
        let t = s.push(c);
        assert(t.len() == 1);
        assert(t[0] == c);
        assert(t.skip(1) =~= Seq::<char>::empty());
        assert(enc_chars(t.skip(1)) =~= Seq::<u8>::empty());
        assert(enc_chars(t) =~= enc_u64(scalar_val(c)) + enc_chars(t.skip(1)));
        assert(enc_chars(s) =~= Seq::<u8>::empty());
        assert(enc_chars(t) =~= enc_chars(s) + enc_u64(scalar_val(c)));
    } else {
        assert(s.push(c).skip(1) =~= s.skip(1).push(c));
        lemma_enc_chars_push(s.skip(1), c);
        assert(s.push(c)[0] == s[0]);
        assert(enc_chars(s.push(c)) =~= enc_u64(scalar_val(s[0])) + (enc_chars(s.skip(1))
            + enc_u64(scalar_val(c))));
        assert(enc_chars(s) + enc_u64(scalar_val(c)) =~= enc_u64(scalar_val(s[0])) + (enc_chars(
            s.skip(1),
        ) + enc_u64(scalar_val(c))));
    }
}

pub proof fn lemma_dec_chars_at(b: Seq<u8>, i: int, s: Seq<char>)
    requires
        0 <= i,
        i + 8 * s.len() <= b.len(),
        b.subrange(i, i + 8 * s.len()) == enc_chars(s),
    ensures
        dec_chars_at(b, i, s.len()) == Some((s, i + 8 * s.len())),
    decreases s.len(),
{
    lemma_enc_chars_len(s);
    if s.len() > 0 {
        let v = scalar_val(s[0]);
        lemma_char_scalar(s[0]);
        lemma_enc_u64_len(v);
        lemma_enc_chars_len(s.skip(1));
        assert(b.subrange(i, i + 8) =~= enc_chars(s).subrange(0, 8));
        assert(enc_chars(s).subrange(0, 8) =~= enc_u64(v));
        lemma_dec_u64_at(b, i, v);
        assert(b.subrange(i + 8, i + 8 * s.len()) =~= enc_chars(s).subrange(
            8,
            enc_chars(s).len() as int,
        ));
        assert(enc_chars(s).subrange(8, enc_chars(s).len() as int) =~= enc_chars(s.skip(1)));
        lemma_dec_chars_at(b, i + 8, s.skip(1));
        assert(seq![s[0]] + s.skip(1) =~= s);
    }
}

pub proof fn lemma_dec_str_at(b: Seq<u8>, i: int, s: Seq<char>)
    requires
        0 <= i,
        s.len() < 0x1_0000_0000_0000_0000,
        i + enc_str(s).len() <= b.len(),
        b.subrange(i, i + enc_str(s).len()) == enc_str(s),
    ensures
        dec_str_at(b, i) == Some((s, i + enc_str(s).len())),
{
    lemma_enc_chars_len(s);
    let n = s.len() as u64;
    lemma_enc_u64_len(n);
    assert(b.subrange(i, i + 8) =~= enc_str(s).subrange(0, 8));
    assert(enc_str(s).subrange(0, 8) =~= enc_u64(n));
    lemma_dec_u64_at(b, i, n);
    assert(b.subrange(i + 8, i + enc_str(s).len()) =~= enc_str(s).subrange(
        8,
        enc_str(s).len() as int,
    ));
    assert(enc_str(s).subrange(8, enc_str(s).len() as int) =~= enc_chars(s));
    lemma_dec_chars_at(b, i + 8, s);
}

// ---------------------------------------------------------------------------
// Trusted declarations for the two std functions the readers and writers
// need and vstd does not specify.
// ---------------------------------------------------------------------------
/// Relies on char::from_u32: `Some` exactly on values below 0x110000 that are
/// not surrogates, and the returned character has the given value.
pub assume_specification[ char::from_u32 ](v: u32) -> (r: Option<char>)
    ensures
        r is Some <==> is_scalar(v),
        r matches Some(c) ==> c as u32 == v,
;

/// Relies on String::push: appends one character.
pub assume_specification[ String::push ](s: &mut String, c: char)
    ensures
        final(s)@ == old(s)@.push(c),
;

// ---------------------------------------------------------------------------
// Executable string reader and writer
// ---------------------------------------------------------------------------
/// Appends the encoding of `s` to `out`.
pub fn push_str(out: &mut Vec<u8>, s: &str)
    ensures
        final(out)@ == old(out)@ + enc_str(s@),
        str_ok(s@),
{
    let n = s.unicode_len();
    push_u64(out, n as u64);
    let ghost start = out@;
    let mut i: usize = 0;
    while i < n
        invariant
            n == s@.len(),
            0 <= i <= n,
            out@ == start + enc_chars(s@.take(i as int)),
        decreases n - i,
    {
        let c = s.get_char(i);
        push_u64(out, (c as u32) as u64);
        proof {
            lemma_enc_chars_push(s@.take(i as int), c);
            assert(s@.take(i as int).push(c) =~= s@.take(i + 1));
        }
        i = i + 1;
    }
    proof {
        assert(s@.take(n as int) =~= s@);
    }
}

/// Reads a length-prefixed string at `pos`, as `dec_str_at` describes.
pub fn read_str(b: &[u8], pos: usize) -> (r: Option<(String, usize)>)
    ensures
        match r {
            Some((s, p)) => dec_str_at(b@, pos as int) == Some((s@, p as int)),
            None => dec_str_at(b@, pos as int) is None,
        },
{
    let (n, start) = match read_u64(b, pos) {
        Some(x) => x,
        None => {
            return None;
        },
    };
    let mut s = String::new();
    let mut p = start;
    let mut i: u64 = 0;
    while i < n
        invariant
            0 <= i <= n,
            dec_u64_at(b@, pos as int) == Some((n, start as int)),
            match dec_chars_at(b@, p as int, (n - i) as nat) {
                Some((t, e)) => dec_chars_at(b@, start as int, n as nat) == Some((s@ + t, e)),
                None => dec_chars_at(b@, start as int, n as nat) is None,
            },
        decreases n - i,
    {
        let (v, p2) = match read_u64(b, p) {
            Some(x) => x,
            None => {
                return None;
            },
        };
        if !(v < 0xD800 || (0xE000 <= v && v < 0x110000)) {
            return None;
        }
        let c = match char::from_u32(v as u32) {
            Some(c) => c,
            None => {
                proof {
                    assert(is_scalar((v as u32)));
                }
                return None;
            },
        };
        proof {
            assert(c as u32 == v as u32);
            assert(scalar_val(c) == v);
            char_u32_cast(c, c as u32);
            assert(char_of(v) == c);
            assert(s@.push(c) + dec_chars_at(b@, p2 as int, (n - i - 1) as nat)->Some_0.0 =~= s@
                + (seq![char_of(v)] + dec_chars_at(b@, p2 as int, (n - i - 1) as nat)->Some_0.0));
        }
        s.push(c);
        p = p2;
        i = i + 1;
    }
    proof {
        assert(s@ + Seq::<char>::empty() =~= s@);
    }
    Some((s, p))
}

// ---------------------------------------------------------------------------
// Segment lists (paths)
// ---------------------------------------------------------------------------
/// Lengths that fit the `u64` prefixes; true of every executable value.
pub open spec fn str_ok(s: Seq<char>) -> bool {
    s.len() < 0x1_0000_0000_0000_0000
}

pub open spec fn path_ok(p: Seq<Seq<char>>) -> bool {
    &&& p.len() < 0x1_0000_0000_0000_0000
    &&& forall|k: int| 0 <= k < p.len() ==> str_ok(#[trigger] p[k])
}

/// Each string of a list, one after the other.
pub open spec fn enc_strs(l: Seq<Seq<char>>) -> Seq<u8>
    decreases l.len(),
{
    if l.len() == 0 {
        Seq::empty()
    } else {
        enc_str(l[0]) + enc_strs(l.skip(1))
    }
}

/// A path: its segment count, then its segments.
pub open spec fn enc_path(p: Seq<Seq<char>>) -> Seq<u8> {
    enc_u64(p.len() as u64) + enc_strs(p)
}

pub open spec fn dec_strs_at(b: Seq<u8>, i: int, n: nat) -> Option<(Seq<Seq<char>>, int)>
    decreases n,
{
    if n == 0 {
        Some((Seq::empty(), i))
    } else {
        match dec_str_at(b, i) {
            Some((s, j)) => {
                match dec_strs_at(b, j, (n - 1) as nat) {
                    Some((l, k)) => Some((seq![s] + l, k)),
                    None => None,
                }
            },
            None => None,
        }
    }
}

pub open spec fn dec_path_at(b: Seq<u8>, i: int) -> Option<(Seq<Seq<char>>, int)> {
    match dec_u64_at(b, i) {
        Some((n, j)) => dec_strs_at(b, j, n as nat),
        None => None,
    }
}

pub proof fn lemma_enc_str_len(s: Seq<char>)
    ensures
        enc_str(s).len() == 8 + 8 * s.len(),
{
    lemma_enc_u64_len(s.len() as u64);
    lemma_enc_chars_len(s);
}

/// Appending one string extends the list encoding at its end.
pub proof fn lemma_enc_strs_push(l: Seq<Seq<char>>, s: Seq<char>)
    ensures
        enc_strs(l.push(s)) == enc_strs(l) + enc_str(s),
    decreases l.len(),
{
    if l.len() == 0 {
        let t = l.push(s);
        assert(t[0] == s);
        assert(t.skip(1) =~= Seq::<Seq<char>>::empty());
        assert(enc_strs(t.skip(1)) =~= Seq::<u8>::empty());
        assert(enc_strs(t) =~= enc_str(s) + enc_strs(t.skip(1)));
        assert(enc_strs(t) =~= enc_strs(l) + enc_str(s));
    } else {
        assert(l.push(s).skip(1) =~= l.skip(1).push(s));
        lemma_enc_strs_push(l.skip(1), s);
        assert(l.push(s)[0] == l[0]);
        assert(enc_strs(l.push(s)) =~= enc_str(l[0]) + (enc_strs(l.skip(1)) + enc_str(s)));
        assert(enc_strs(l) + enc_str(s) =~= enc_str(l[0]) + (enc_strs(l.skip(1)) + enc_str(s)));
    }
}

pub proof fn lemma_dec_strs_at(b: Seq<u8>, i: int, l: Seq<Seq<char>>)
    requires
        0 <= i,
        forall|k: int| 0 <= k < l.len() ==> str_ok(#[trigger] l[k]),
        i + enc_strs(l).len() <= b.len(),
        b.subrange(i, i + enc_strs(l).len()) == enc_strs(l),
    ensures
        dec_strs_at(b, i, l.len()) == Some((l, i + enc_strs(l).len())),
    decreases l.len(),
{
    if l.len() > 0 {
        let s = l[0];
        let w = enc_str(s).len() as int;
        lemma_enc_str_len(s);
        assert(b.subrange(i, i + w) =~= enc_strs(l).subrange(0, w));
        assert(enc_strs(l).subrange(0, w) =~= enc_str(s));
        lemma_dec_str_at(b, i, s);
        assert(b.subrange(i + w, i + enc_strs(l).len()) =~= enc_strs(l).subrange(
            w,
            enc_strs(l).len() as int,
        ));
        assert(enc_strs(l).subrange(w, enc_strs(l).len() as int) =~= enc_strs(l.skip(1)));
        lemma_dec_strs_at(b, i + w, l.skip(1));
        assert(seq![s] + l.skip(1) =~= l);
    }
}

pub proof fn lemma_dec_path_at(b: Seq<u8>, i: int, p: Seq<Seq<char>>)
    requires
        0 <= i,
        path_ok(p),
        i + enc_path(p).len() <= b.len(),
        b.subrange(i, i + enc_path(p).len()) == enc_path(p),
    ensures
        dec_path_at(b, i) == Some((p, i + enc_path(p).len())),
{
    let n = p.len() as u64;
    lemma_enc_u64_len(n);
    assert(b.subrange(i, i + 8) =~= enc_path(p).subrange(0, 8));
    assert(enc_path(p).subrange(0, 8) =~= enc_u64(n));
    lemma_dec_u64_at(b, i, n);
    assert(b.subrange(i + 8, i + enc_path(p).len()) =~= enc_path(p).subrange(
        8,
        enc_path(p).len() as int,
    ));
    assert(enc_path(p).subrange(8, enc_path(p).len() as int) =~= enc_strs(p));
    lemma_dec_strs_at(b, i + 8, p);
}

/// Appends the encoding of the path whose segments are `p` to `out`.
pub fn push_path(out: &mut Vec<u8>, p: &Vec<String>)
    ensures
        final(out)@ == old(out)@ + enc_path(p.deep_view()),
        path_ok(p.deep_view()),
{
    push_u64(out, p.len() as u64);
    let ghost start = out@;
    let mut i: usize = 0;
    while i < p.len()
        invariant
            0 <= i <= p@.len(),
            out@ == start + enc_strs(p.deep_view().take(i as int)),
            forall|j: int| 0 <= j < i ==> str_ok(#[trigger] p.deep_view()[j]),
        decreases p@.len() - i,
    {
        push_str(out, p[i].as_str());
        proof {
            lemma_enc_strs_push(p.deep_view().take(i as int), p@[i as int]@);
            assert(p.deep_view().take(i as int).push(p@[i as int]@) =~= p.deep_view().take(i + 1));
        }
        i = i + 1;
    }
    proof {
        assert(p.deep_view().take(p@.len() as int) =~= p.deep_view());
    }
}

/// Reads a path at `pos`, as `dec_path_at` describes.
pub fn read_path(b: &[u8], pos: usize) -> (r: Option<(Vec<String>, usize)>)
    ensures
        match r {
            Some((p, e)) => dec_path_at(b@, pos as int) == Some((p.deep_view(), e as int)),
            None => dec_path_at(b@, pos as int) is None,
        },
{
    let (n, start) = match read_u64(b, pos) {
        Some(x) => x,
        None => {
            return None;
        },
    };
    let mut segs: Vec<String> = Vec::new();
    let mut p = start;
    let mut i: u64 = 0;
    while i < n
        invariant
            0 <= i <= n,
            dec_u64_at(b@, pos as int) == Some((n, start as int)),
            match dec_strs_at(b@, p as int, (n - i) as nat) {
                Some((t, e)) => dec_strs_at(b@, start as int, n as nat) == Some((
                    segs.deep_view() + t,
                    e,
                )),
                None => dec_strs_at(b@, start as int, n as nat) is None,
            },
        decreases n - i,
    {
        let (s, p2) = match read_str(b, p) {
            Some(x) => x,
            None => {
                return None;
            },
        };
        let ghost prev = segs.deep_view();
        let ghost sv = s@;
        segs.push(s);
        proof {
            assert(segs.deep_view() =~= prev.push(sv));
            let rest = dec_strs_at(b@, p2 as int, (n - i - 1) as nat);
            if rest is Some {
                assert(prev.push(sv) + rest->Some_0.0 =~= prev + (seq![sv] + rest->Some_0.0));
            }
        }
        p = p2;
        i = i + 1;
    }
    proof {
        assert(segs.deep_view() + Seq::<Seq<char>>::empty() =~= segs.deep_view());
    }
    Some((segs, p))
}

// ---------------------------------------------------------------------------
// Index associations: a path, then the filename it maps to
// ---------------------------------------------------------------------------
pub open spec fn assoc_ok(a: (Seq<Seq<char>>, Seq<char>)) -> bool {
    path_ok(a.0) && str_ok(a.1)
}

pub open spec fn assocs_ok(l: Seq<(Seq<Seq<char>>, Seq<char>)>) -> bool {
    &&& l.len() < 0x1_0000_0000_0000_0000
    &&& forall|k: int| 0 <= k < l.len() ==> assoc_ok(#[trigger] l[k])
}

pub open spec fn enc_assoc(a: (Seq<Seq<char>>, Seq<char>)) -> Seq<u8> {
    enc_path(a.0) + enc_str(a.1)
}

pub open spec fn enc_assocs(l: Seq<(Seq<Seq<char>>, Seq<char>)>) -> Seq<u8>
    decreases l.len(),
{
    if l.len() == 0 {
        Seq::empty()
    } else {
        enc_assoc(l[0]) + enc_assocs(l.skip(1))
    }
}

/// The index file: the association count, then each association.
pub open spec fn enc_index(l: Seq<(Seq<Seq<char>>, Seq<char>)>) -> Seq<u8> {
    enc_u64(l.len() as u64) + enc_assocs(l)
}

pub open spec fn dec_assoc_at(b: Seq<u8>, i: int) -> Option<((Seq<Seq<char>>, Seq<char>), int)> {
    match dec_path_at(b, i) {
        Some((p, j)) => {
            match dec_str_at(b, j) {
                Some((f, k)) => Some(((p, f), k)),
                None => None,
            }
        },
        None => None,
    }
}

pub open spec fn dec_assocs_at(b: Seq<u8>, i: int, n: nat) -> Option<
    (Seq<(Seq<Seq<char>>, Seq<char>)>, int),
>
    decreases n,
{
    if n == 0 {
        Some((Seq::empty(), i))
    } else {
        match dec_assoc_at(b, i) {
            Some((a, j)) => {
                match dec_assocs_at(b, j, (n - 1) as nat) {
                    Some((l, k)) => Some((seq![a] + l, k)),
                    None => None,
                }
            },
            None => None,
        }
    }
}

/// Decodes a whole index file; trailing bytes are malformed.
pub open spec fn dec_index(b: Seq<u8>) -> Option<Seq<(Seq<Seq<char>>, Seq<char>)>> {
    match dec_u64_at(b, 0) {
        Some((n, j)) => {
            match dec_assocs_at(b, j, n as nat) {
                Some((l, e)) => if e == b.len() {
                    Some(l)
                } else {
                    None
                },
                None => None,
            }
        },
        None => None,
    }
}

pub proof fn lemma_enc_assocs_push(l: Seq<(Seq<Seq<char>>, Seq<char>)>, a: (Seq<Seq<char>>, Seq<char>))
    ensures
        enc_assocs(l.push(a)) == enc_assocs(l) + enc_assoc(a),
    decreases l.len(),
{
    if l.len() == 0 {
        let t = l.push(a);
        assert(t[0] == a);
        assert(t.skip(1) =~= Seq::<(Seq<Seq<char>>, Seq<char>)>::empty());
        assert(enc_assocs(t.skip(1)) =~= Seq::<u8>::empty());
        assert(enc_assocs(t) =~= enc_assoc(a) + enc_assocs(t.skip(1)));
        assert(enc_assocs(t) =~= enc_assocs(l) + enc_assoc(a));
    } else {
        assert(l.push(a).skip(1) =~= l.skip(1).push(a));
        lemma_enc_assocs_push(l.skip(1), a);
        assert(l.push(a)[0] == l[0]);
        assert(enc_assocs(l.push(a)) =~= enc_assoc(l[0]) + (enc_assocs(l.skip(1)) + enc_assoc(a)));
        assert(enc_assocs(l) + enc_assoc(a) =~= enc_assoc(l[0]) + (enc_assocs(l.skip(1))
            + enc_assoc(a)));
    }
}

pub proof fn lemma_dec_assoc_at(b: Seq<u8>, i: int, a: (Seq<Seq<char>>, Seq<char>))
    requires
        0 <= i,
        assoc_ok(a),
        i + enc_assoc(a).len() <= b.len(),
        b.subrange(i, i + enc_assoc(a).len()) == enc_assoc(a),
    ensures
        dec_assoc_at(b, i) == Some((a, i + enc_assoc(a).len())),
{
    let wp = enc_path(a.0).len() as int;
    let wf = enc_str(a.1).len() as int;
    assert(b.subrange(i, i + wp) =~= enc_assoc(a).subrange(0, wp));
    assert(enc_assoc(a).subrange(0, wp) =~= enc_path(a.0));
    lemma_dec_path_at(b, i, a.0);
    assert(b.subrange(i + wp, i + wp + wf) =~= enc_assoc(a).subrange(wp, wp + wf));
    assert(enc_assoc(a).subrange(wp, wp + wf) =~= enc_str(a.1));
    lemma_dec_str_at(b, i + wp, a.1);
}

pub proof fn lemma_dec_assocs_at(b: Seq<u8>, i: int, l: Seq<(Seq<Seq<char>>, Seq<char>)>)
    requires
        0 <= i,
        forall|k: int| 0 <= k < l.len() ==> assoc_ok(#[trigger] l[k]),
        i + enc_assocs(l).len() <= b.len(),
        b.subrange(i, i + enc_assocs(l).len()) == enc_assocs(l),
    ensures
        dec_assocs_at(b, i, l.len()) == Some((l, i + enc_assocs(l).len())),
    decreases l.len(),
{
    if l.len() > 0 {
        let a = l[0];
        let w = enc_assoc(a).len() as int;
        assert(b.subrange(i, i + w) =~= enc_assocs(l).subrange(0, w));
        assert(enc_assocs(l).subrange(0, w) =~= enc_assoc(a));
        lemma_dec_assoc_at(b, i, a);
        assert(b.subrange(i + w, i + enc_assocs(l).len()) =~= enc_assocs(l).subrange(
            w,
            enc_assocs(l).len() as int,
        ));
        assert(enc_assocs(l).subrange(w, enc_assocs(l).len() as int) =~= enc_assocs(l.skip(1)));
        lemma_dec_assocs_at(b, i + w, l.skip(1));
        assert(seq![a] + l.skip(1) =~= l);
    }
}

/// Law: decoding an encoded index file recovers exactly the encoded
/// associations.
pub proof fn lemma_index_round_trip(l: Seq<(Seq<Seq<char>>, Seq<char>)>)
    requires
        assocs_ok(l),
    ensures
        dec_index(enc_index(l)) == Some(l),
{
    let b = enc_index(l);
    let n = l.len() as u64;
    lemma_enc_u64_len(n);
    assert(b.subrange(0, 8) =~= enc_u64(n));
    lemma_dec_u64_at(b, 0, n);
    assert(b.subrange(8, b.len() as int) =~= enc_assocs(l));
    lemma_dec_assocs_at(b, 8, l);
}

// ---------------------------------------------------------------------------
// Tag pairs: a tag name, then its value
// ---------------------------------------------------------------------------
pub open spec fn tag_ok(t: (Seq<char>, Seq<char>)) -> bool {
    str_ok(t.0) && str_ok(t.1)
}

pub open spec fn tags_ok(l: Seq<(Seq<char>, Seq<char>)>) -> bool {
    &&& l.len() < 0x1_0000_0000_0000_0000
    &&& forall|k: int| 0 <= k < l.len() ==> tag_ok(#[trigger] l[k])
}

pub open spec fn enc_tag(t: (Seq<char>, Seq<char>)) -> Seq<u8> {
    enc_str(t.0) + enc_str(t.1)
}

pub open spec fn enc_tags(l: Seq<(Seq<char>, Seq<char>)>) -> Seq<u8>
    decreases l.len(),
{
    if l.len() == 0 {
        Seq::empty()
    } else {
        enc_tag(l[0]) + enc_tags(l.skip(1))
    }
}

/// An entry payload: the tag count, then each tag pair.
pub open spec fn enc_entry(l: Seq<(Seq<char>, Seq<char>)>) -> Seq<u8> {
    enc_u64(l.len() as u64) + enc_tags(l)
}

pub open spec fn dec_tag_at(b: Seq<u8>, i: int) -> Option<((Seq<char>, Seq<char>), int)> {
    match dec_str_at(b, i) {
        Some((k, j)) => {
            match dec_str_at(b, j) {
                Some((v, e)) => Some(((k, v), e)),
                None => None,
            }
        },
        None => None,
    }
}

pub open spec fn dec_tags_at(b: Seq<u8>, i: int, n: nat) -> Option<
    (Seq<(Seq<char>, Seq<char>)>, int),
>
    decreases n,
{
    if n == 0 {
        Some((Seq::empty(), i))
    } else {
        match dec_tag_at(b, i) {
            Some((t, j)) => {
                match dec_tags_at(b, j, (n - 1) as nat) {
                    Some((l, k)) => Some((seq![t] + l, k)),
                    None => None,
                }
            },
            None => None,
        }
    }
}

/// Decodes a whole entry payload; trailing bytes are malformed.
pub open spec fn dec_entry(b: Seq<u8>) -> Option<Seq<(Seq<char>, Seq<char>)>> {
    match dec_u64_at(b, 0) {
        Some((n, j)) => {
            match dec_tags_at(b, j, n as nat) {
                Some((l, e)) => if e == b.len() {
                    Some(l)
                } else {
                    None
                },
                None => None,
            }
        },
        None => None,
    }
}

pub proof fn lemma_enc_tags_push(l: Seq<(Seq<char>, Seq<char>)>, t: (Seq<char>, Seq<char>))
    ensures
        enc_tags(l.push(t)) == enc_tags(l) + enc_tag(t),
    decreases l.len(),
{
    if l.len() == 0 {
        let u = l.push(t);
        assert(u[0] == t);
        assert(u.skip(1) =~= Seq::<(Seq<char>, Seq<char>)>::empty());
        assert(enc_tags(u.skip(1)) =~= Seq::<u8>::empty());
        assert(enc_tags(u) =~= enc_tag(t) + enc_tags(u.skip(1)));
        assert(enc_tags(u) =~= enc_tags(l) + enc_tag(t));
    } else {
        assert(l.push(t).skip(1) =~= l.skip(1).push(t));
        lemma_enc_tags_push(l.skip(1), t);
        assert(l.push(t)[0] == l[0]);
        assert(enc_tags(l.push(t)) =~= enc_tag(l[0]) + (enc_tags(l.skip(1)) + enc_tag(t)));
        assert(enc_tags(l) + enc_tag(t) =~= enc_tag(l[0]) + (enc_tags(l.skip(1)) + enc_tag(t)));
    }
}

pub proof fn lemma_dec_tag_at(b: Seq<u8>, i: int, t: (Seq<char>, Seq<char>))
    requires
        0 <= i,
        tag_ok(t),
        i + enc_tag(t).len() <= b.len(),
        b.subrange(i, i + enc_tag(t).len()) == enc_tag(t),
    ensures
        dec_tag_at(b, i) == Some((t, i + enc_tag(t).len())),
{
    let wk = enc_str(t.0).len() as int;
    let wv = enc_str(t.1).len() as int;
    assert(b.subrange(i, i + wk) =~= enc_tag(t).subrange(0, wk));
    assert(enc_tag(t).subrange(0, wk) =~= enc_str(t.0));
    lemma_dec_str_at(b, i, t.0);
    assert(b.subrange(i + wk, i + wk + wv) =~= enc_tag(t).subrange(wk, wk + wv));
    assert(enc_tag(t).subrange(wk, wk + wv) =~= enc_str(t.1));
    lemma_dec_str_at(b, i + wk, t.1);
}

pub proof fn lemma_dec_tags_at(b: Seq<u8>, i: int, l: Seq<(Seq<char>, Seq<char>)>)
    requires
        0 <= i,
        forall|k: int| 0 <= k < l.len() ==> tag_ok(#[trigger] l[k]),
        i + enc_tags(l).len() <= b.len(),
        b.subrange(i, i + enc_tags(l).len()) == enc_tags(l),
    ensures
        dec_tags_at(b, i, l.len()) == Some((l, i + enc_tags(l).len())),
    decreases l.len(),
{
    if l.len() > 0 {
        let t = l[0];
        let w = enc_tag(t).len() as int;
        assert(b.subrange(i, i + w) =~= enc_tags(l).subrange(0, w));
        assert(enc_tags(l).subrange(0, w) =~= enc_tag(t));
        lemma_dec_tag_at(b, i, t);
        assert(b.subrange(i + w, i + enc_tags(l).len()) =~= enc_tags(l).subrange(
            w,
            enc_tags(l).len() as int,
        ));
        assert(enc_tags(l).subrange(w, enc_tags(l).len() as int) =~= enc_tags(l.skip(1)));
        lemma_dec_tags_at(b, i + w, l.skip(1));
        assert(seq![t] + l.skip(1) =~= l);
    }
}

/// Law: decoding an encoded entry payload recovers exactly the encoded tags.
pub proof fn lemma_entry_round_trip(l: Seq<(Seq<char>, Seq<char>)>)
    requires
        tags_ok(l),
    ensures
        dec_entry(enc_entry(l)) == Some(l),
{
    let b = enc_entry(l);
    let n = l.len() as u64;
    lemma_enc_u64_len(n);
    assert(b.subrange(0, 8) =~= enc_u64(n));
    lemma_dec_u64_at(b, 0, n);
    assert(b.subrange(8, b.len() as int) =~= enc_tags(l));
    lemma_dec_tags_at(b, 8, l);
}

// ---------------------------------------------------------------------------
// The key file and the secret-file frame
// ---------------------------------------------------------------------------
/// The key file: the byte count (always 32), then the raw key bytes.
pub open spec fn enc_key(k: Seq<u8>) -> Seq<u8> {
    enc_u64(k.len() as u64) + k
}

/// Decodes a key file: exactly a count of 32 and 32 key bytes.
pub open spec fn dec_key(b: Seq<u8>) -> Option<Seq<u8>> {
    match dec_u64_at(b, 0) {
        Some((n, j)) => if n == 32 && b.len() == 40 {
            Some(b.skip(8))
        } else {
            None
        },
        None => None,
    }
}

/// Law: decoding an encoded key file recovers the key.
pub proof fn lemma_key_round_trip(k: Seq<u8>)
    requires
        k.len() == 32,
    ensures
        dec_key(enc_key(k)) == Some(k),
{
    let b = enc_key(k);
    lemma_enc_u64_len(32);
    assert(b.subrange(0, 8) =~= enc_u64(32));
    lemma_dec_u64_at(b, 0, 32);
    assert(b.skip(8) =~= k);
}

/// The secret-file frame: the 24 nonce bytes, then the ciphertext.
pub open spec fn enc_frame(nonce: Seq<u8>, ciphertext: Seq<u8>) -> Seq<u8>
    recommends
        nonce.len() == 24,
{
    nonce + ciphertext
}

/// Splits a secret file into nonce and ciphertext; shorter than a nonce is
/// malformed.
pub open spec fn dec_frame(b: Seq<u8>) -> Option<(Seq<u8>, Seq<u8>)> {
    if b.len() >= 24 {
        Some((b.take(24), b.skip(24)))
    } else {
        None
    }
}

/// Law: splitting a framed secret recovers the nonce and the ciphertext.
pub proof fn lemma_frame_round_trip(nonce: Seq<u8>, ciphertext: Seq<u8>)
    requires
        nonce.len() == 24,
    ensures
        dec_frame(enc_frame(nonce, ciphertext)) == Some((nonce, ciphertext)),
{
    assert(enc_frame(nonce, ciphertext).take(24) =~= nonce);
    assert(enc_frame(nonce, ciphertext).skip(24) =~= ciphertext);
}

} // verus!
