//! Stable identities for files, and a stable hash.

use vstd::prelude::*;

use vstd::utf8::encode_utf8;

verus! {

/// The starting value of the hash.
pub const FNV_OFFSET: u64 = 0xcbf2_9ce4_8422_2325;

/// The multiplier of the hash.
pub const FNV_PRIME: u64 = 0x0000_0100_0000_01b3;

/// The 64-bit FNV-1a hash of a run of bytes.
pub open spec fn fnv1a(bytes: Seq<u8>) -> u64
    decreases bytes.len(),
{
    if bytes.len() == 0 {
        FNV_OFFSET
    } else {
        (fnv1a(bytes.drop_last()) ^ (bytes.last() as u64)).wrapping_mul(FNV_PRIME)
    }
}

/// The 64-bit FNV-1a hash of a text.
pub fn fnv1a_64(s: &str) -> (out: u64)
    ensures
        out == fnv1a(encode_utf8(s@)),
{
    let bytes: &[u8] = s.as_bytes();
    let mut hash: u64 = FNV_OFFSET;
    let mut i: usize = 0;
    while i < bytes.len()
        invariant
            i <= bytes.len(),
            hash == fnv1a(bytes@.take(i as int)),
        decreases bytes.len() - i,
    {
        hash = (hash ^ (bytes[i] as u64)).wrapping_mul(FNV_PRIME);
        i += 1;
        assert(bytes@.take(i as int).drop_last() =~= bytes@.take(i - 1));
    }
    assert(bytes@.take(i as int) =~= bytes@);
    hash
}

/// The character of a hexadecimal digit.
pub open spec fn hex_char(d: nat) -> char {
    if d < 10 {
        crate::text::digit_char(d)
    } else if d == 10 {
        'a'
    } else if d == 11 {
        'b'
    } else if d == 12 {
        'c'
    } else if d == 13 {
        'd'
    } else if d == 14 {
        'e'
    } else {
        'f'
    }
}

/// The last `width` hexadecimal digits of a number.
pub open spec fn hex(n: nat, width: nat) -> Seq<char>
    decreases width,
{
    if width == 0 {
        Seq::empty()
    } else {
        hex(n / 16, (width - 1) as nat).push(hex_char(n % 16))
    }
}

fn hex_digit(d: u64) -> (out: char)
    requires
        d < 16,
    ensures
        out == hex_char(d as nat),
{
    if d < 10 {
        crate::text::digit(d)
    } else if d == 10 {
        'a'
    } else if d == 11 {
        'b'
    } else if d == 12 {
        'c'
    } else if d == 13 {
        'd'
    } else if d == 14 {
        'e'
    } else {
        'f'
    }
}

fn write_hex(n: u64, width: usize) -> (out: String)
    ensures
        out@ == hex(n as nat, width as nat),
    decreases width,
{
    if width == 0 {
        return String::new();
    }
    let mut out: String = write_hex(n / 16, width - 1);
    out.push(hex_digit(n % 16));
    out
}

/// Whether a path lies at or below a root.
pub open spec fn under(path: Seq<char>, root: Seq<char>) -> bool {
    &&& 0 < root.len() <= path.len()
    &&& path.take(root.len() as int) == root
    &&& root.len() == path.len() || root.last() == '/' || path[root.len() as int] == '/'
}

/// A path without the first of the roots that it lies under.
pub open spec fn canonical(path: Seq<char>, roots: Seq<String>) -> Seq<char>
    decreases roots.len(),
{
    if roots.len() == 0 {
        path
    } else if under(path, roots[0]@) {
        path.skip(roots[0]@.len() as int)
    } else {
        canonical(path, roots.drop_first())
    }
}

fn is_under(path: &Vec<char>, root: &Vec<char>) -> (out: bool)
    ensures
        out == under(path@, root@),
{
    let n: usize = root.len();
    if n == 0 || n > path.len() {
        return false;
    }
    let mut i: usize = 0;
    while i < n
        invariant
            i <= n,
            n == root.len(),
            n <= path.len(),
            forall|j: int| 0 <= j < i ==> path@[j] == root@[j],
        decreases n - i,
    {
        if path[i] != root[i] {
            assert(path@.take(n as int)[i as int] != root@[i as int]);
            return false;
        }
        i += 1;
    }
    assert(path@.take(n as int) =~= root@);
    n == path.len() || root[n - 1] == '/' || path[n] == '/'
}

/// A path without the first of the roots that it lies under, so that a file reached through
/// two mounts has one identity.
pub fn canonical_path(path: &str, roots: &Vec<String>) -> (out: String)
    ensures
        out@ == canonical(path@, roots@),
{
    let chars: Vec<char> = crate::text::chars_of(path);
    let mut i: usize = 0;
    assert(roots@.skip(0) =~= roots@);
    while i < roots.len()
        invariant
            i <= roots.len(),
            chars@ == path@,
            canonical(path@, roots@) == canonical(path@, roots@.skip(i as int)),
        decreases roots.len() - i,
    {
        assert(roots@.skip(i as int)[0] == roots@[i as int]);
        let root: Vec<char> = crate::text::chars_of(roots[i].as_str());
        if is_under(&chars, &root) {
            let out: String = crate::text::text_of(&chars, root.len(), chars.len());
            assert(chars@.subrange(root@.len() as int, chars@.len() as int) =~= path@.skip(
                root@.len() as int,
            ));
            return out;
        }
        assert(roots@.skip(i as int).drop_first() =~= roots@.skip(i + 1));
        i += 1;
    }
    path.to_owned()
}

/// The identity of a file that the catalog does not know.
pub open spec fn file_identity(canonical: Seq<char>) -> Seq<char> {
    "fs:"@ + hex(fnv1a(encode_utf8(canonical)) as nat, 16)
}

/// The identity of a file that the catalog does not know: a hash of its canonical path.
pub fn derive_entry_id(canonical: &str) -> (out: String)
    ensures
        out@ == file_identity(canonical@),
{
    let mut out: String = "fs:".to_owned();
    out.append(write_hex(fnv1a_64(canonical), 16).as_str());
    out
}

} // verus!
