//! Tar stream encoding.
//!
//! An archive is the concatenation of one block sequence per entry, in
//! walk order, followed by two 512-byte zero blocks. Each entry is a
//! 512-byte header (name, mode, size, mtime, checksum, type flag, ustar
//! magic) followed, for files, by the contents padded with zeros to a
//! block boundary. Directories are stored with a trailing slash and
//! zero size. A stored name longer than the classic 100-byte field is
//! carried by a GNU long-name entry (`././@LongLink`, type `L`) holding
//! the full name, followed by the real header with the name truncated.
//!
//! The encoder is pure: the caller walks the filesystem, reads file
//! contents, and feeds entries here; the bytes that come back are
//! streamed out chunk by chunk.

use vstd::prelude::*;
use vstd::arithmetic::div_mod::lemma_div_denominator;

verus! {

/// `n` zero bytes.
pub open spec fn zeros(n: nat) -> Seq<u8> {
    Seq::new(n, |i: int| 0u8)
}

/// `n` space bytes.
pub open spec fn spaces(n: nat) -> Seq<u8> {
    Seq::new(n, |i: int| 0x20u8)
}

/// The power `8^e`.
pub open spec fn pow8(e: nat) -> nat
    decreases e,
{
    if e == 0 {
        1
    } else {
        8 * pow8((e - 1) as nat)
    }
}

proof fn lemma_pow8_bound(e: nat)
    requires
        e <= 11,
    ensures
        pow8(e) <= 8589934592,
{
    lemma_pow8_le(e, 11);
    reveal_with_fuel(pow8, 13);
    assert(pow8(11) == 8589934592);
}

proof fn lemma_pow8_le(a: nat, b: nat)
    requires
        a <= b,
    ensures
        pow8(a) <= pow8(b),
    decreases b,
{
    if a < b {
        lemma_pow8_le(a, (b - 1) as nat);
        assert(pow8(b) == 8 * pow8((b - 1) as nat));
    }
}

/// The `width` octal digit bytes of `n`, most significant first, zero
/// padded.
pub open spec fn oct_digits(n: nat, width: nat) -> Seq<u8> {
    Seq::new(width, |i: int| (0x30 + (n / pow8((width - 1 - i) as nat)) % 8) as u8)
}

/// An octal numeric header field: the digits, then a NUL terminator.
pub open spec fn oct_field(n: nat, width: nat) -> Seq<u8> {
    oct_digits(n, width) + seq![0u8]
}

/// The sum of a run of bytes, as a tar checksum counts it.
pub open spec fn sum_bytes(s: Seq<u8>) -> nat
    decreases s.len(),
{
    if s.len() == 0 {
        0
    } else {
        (sum_bytes(s.drop_last()) + s.last()) as nat
    }
}

proof fn lemma_sum_bytes_bound(s: Seq<u8>)
    ensures
        sum_bytes(s) <= 255 * s.len(),
    decreases s.len(),
{
    if s.len() > 0 {
        lemma_sum_bytes_bound(s.drop_last());
    }
}

/// The `ustar` magic and version bytes at offset 257.
pub open spec fn ustar_magic() -> Seq<u8> {
    seq![0x75u8, 0x73u8, 0x74u8, 0x61u8, 0x72u8, 0u8, 0x30u8, 0x30u8]
}

/// The 512-byte header with the checksum field still holding spaces:
/// name padded to 100 bytes, mode, uid 0, gid 0, size, mtime, the
/// space-filled checksum, the type flag, an empty link name, the ustar
/// magic, empty owner names and device numbers, an empty prefix, and
/// padding.
pub open spec fn header_pre(
    name: Seq<u8>,
    mode: nat,
    size: nat,
    mtime: nat,
    typeflag: u8,
) -> Seq<u8> {
    name + zeros((100 - name.len()) as nat) + oct_field(mode, 7) + oct_field(0, 7) + oct_field(0, 7)
        + oct_field(size, 11) + oct_field(mtime, 11) + spaces(8) + seq![typeflag] + zeros(100)
        + ustar_magic() + zeros(32) + zeros(32) + zeros(8) + zeros(8) + zeros(155) + zeros(12)
}

/// The checksum field: six octal digits, a NUL, a space.
pub open spec fn checksum_field(ck: nat) -> Seq<u8> {
    oct_digits(ck, 6) + seq![0u8, 0x20u8]
}

/// A complete 512-byte tar header: the space-checksum form with the
/// checksum of its own bytes written into offsets 148..156.
pub open spec fn tar_header_spec(
    name: Seq<u8>,
    mode: nat,
    size: nat,
    mtime: nat,
    typeflag: u8,
) -> Seq<u8> {
    let pre = header_pre(name, mode, size, mtime, typeflag);
    pre.take(148) + checksum_field(sum_bytes(pre)) + pre.skip(156)
}

/// Appends `src` to `dst`.
fn push_all(dst: &mut Vec<u8>, src: &Vec<u8>)
    ensures
        final(dst)@ == old(dst)@ + src@,
{
    let n = src.len();
    let mut i: usize = 0;
    while i < n
        invariant
            0 <= i <= n,
            n == src@.len(),
            dst@ == old(dst)@ + src@.take(i as int),
        decreases n - i,
    {
        dst.push(src[i]);
        proof {
            assert(src@.take(i as int).push(src@[i as int]) =~= src@.take(i as int + 1));
        }
        i = i + 1;
    }
    proof {
        assert(src@.take(n as int) =~= src@);
    }
}

/// Appends `n` zero bytes to `dst`.
fn push_zeros(dst: &mut Vec<u8>, n: usize)
    ensures
        final(dst)@ == old(dst)@ + zeros(n as nat),
{
    let mut i: usize = 0;
    while i < n
        invariant
            0 <= i <= n,
            dst@ == old(dst)@ + zeros(i as nat),
        decreases n - i,
    {
        dst.push(0);
        proof {
            assert(zeros(i as nat).push(0u8) =~= zeros(i as nat + 1));
        }
        i = i + 1;
    }
}

/// Appends `src[from..to]` to `dst`.
fn push_range(dst: &mut Vec<u8>, src: &Vec<u8>, from: usize, to: usize)
    requires
        from <= to <= src@.len(),
    ensures
        final(dst)@ == old(dst)@ + src@.subrange(from as int, to as int),
{
    let mut i: usize = from;
    while i < to
        invariant
            from <= i <= to,
            to <= src@.len(),
            dst@ == old(dst)@ + src@.subrange(from as int, i as int),
        decreases to - i,
    {
        dst.push(src[i]);
        proof {
            assert(src@.subrange(from as int, i as int).push(src@[i as int]) =~= src@.subrange(
                from as int,
                i as int + 1,
            ));
        }
        i = i + 1;
    }
}

/// `8^e` for the field widths in use.
fn pow8_exec(e: usize) -> (r: u64)
    requires
        e <= 11,
    ensures
        r == pow8(e as nat),
    decreases e,
{
    if e == 0 {
        1
    } else {
        let rest = pow8_exec(e - 1);
        proof {
            lemma_pow8_le(e as nat, 11);
            lemma_pow8_bound(11);
        }
        8 * rest
    }
}

/// Appends the `width` octal digits of `n` to `dst`.
fn push_oct(dst: &mut Vec<u8>, n: u64, width: usize)
    requires
        width <= 11,
        n < pow8(width as nat),
    ensures
        final(dst)@ == old(dst)@ + oct_digits(n as nat, width as nat),
{
    let mut i: usize = 0;
    while i < width
        invariant
            0 <= i <= width,
            width <= 11,
            n < pow8(width as nat),
            dst@ == old(dst)@ + oct_digits(n as nat, width as nat).take(i as int),
        decreases width - i,
    {
        let p = pow8_exec(width - 1 - i);
        proof {
            lemma_pow8_le(0, (width - 1 - i) as nat);
        }
        let d = (n / p) % 8;
        dst.push((0x30 + d) as u8);
        proof {
            assert(oct_digits(n as nat, width as nat)[i as int] == (0x30 + (n as nat / pow8((width
                - 1 - i) as nat)) % 8) as u8);
            assert(oct_digits(n as nat, width as nat).take(i as int).push(
                oct_digits(n as nat, width as nat)[i as int],
            ) =~= oct_digits(n as nat, width as nat).take(i as int + 1));
        }
        i = i + 1;
    }
    proof {
        assert(oct_digits(n as nat, width as nat).take(width as int) =~= oct_digits(
            n as nat,
            width as nat,
        ));
    }
}

/// The byte sum of `v`, as the checksum counts it.
fn sum_vec(v: &Vec<u8>) -> (r: u64)
    requires
        v@.len() <= 65536,
    ensures
        r == sum_bytes(v@),
{
    let n = v.len();
    let mut acc: u64 = 0;
    let mut i: usize = 0;
    while i < n
        invariant
            0 <= i <= n,
            n == v@.len(),
            n <= 65536,
            acc == sum_bytes(v@.take(i as int)),
            acc <= 255 * i,
        decreases n - i,
    {
        proof {
            assert(v@.take(i as int + 1).drop_last() =~= v@.take(i as int));
            assert(v@.take(i as int + 1).last() == v@[i as int]);
        }
        acc = acc + v[i] as u64;
        i = i + 1;
    }
    proof {
        assert(v@.take(n as int) =~= v@);
    }
    acc
}

/// Builds one 512-byte tar header.
pub fn tar_header(name: &Vec<u8>, mode: u64, size: u64, mtime: u64, typeflag: u8) -> (r: Vec<u8>)
    requires
        name@.len() <= 100,
        mode < pow8(7),
        size < pow8(11),
        mtime < pow8(11),
    ensures
        r@ == tar_header_spec(name@, mode as nat, size as nat, mtime as nat, typeflag),
        r@.len() == 512,
{
    let mut pre: Vec<u8> = Vec::new();
    push_all(&mut pre, name);
    push_zeros(&mut pre, 100 - name.len());
    push_oct(&mut pre, mode, 7);
    pre.push(0);
    push_oct(&mut pre, 0, 7);
    pre.push(0);
    push_oct(&mut pre, 0, 7);
    pre.push(0);
    push_oct(&mut pre, size, 11);
    pre.push(0);
    push_oct(&mut pre, mtime, 11);
    pre.push(0);
    proof {
        assert(pre@ =~= old_pre_spaces(name@, mode as nat, size as nat, mtime as nat, 0));
    }
    let mut i: usize = 0;
    while i < 8
        invariant
            0 <= i <= 8,
            pre@ == old_pre_spaces(name@, mode as nat, size as nat, mtime as nat, i as nat),
        decreases 8 - i,
    {
        pre.push(0x20);
        proof {
            assert(spaces(i as nat).push(0x20u8) =~= spaces(i as nat + 1));
            assert(old_pre_spaces(name@, mode as nat, size as nat, mtime as nat, i as nat).push(
                0x20u8,
            ) =~= old_pre_spaces(name@, mode as nat, size as nat, mtime as nat, i as nat + 1));
        }
        i = i + 1;
    }
    pre.push(typeflag);
    push_zeros(&mut pre, 100);
    pre.push(0x75);
    pre.push(0x73);
    pre.push(0x74);
    pre.push(0x61);
    pre.push(0x72);
    pre.push(0);
    pre.push(0x30);
    pre.push(0x30);
    push_zeros(&mut pre, 32);
    push_zeros(&mut pre, 32);
    push_zeros(&mut pre, 8);
    push_zeros(&mut pre, 8);
    push_zeros(&mut pre, 155);
    push_zeros(&mut pre, 12);
    proof {
        assert(pre@ =~= header_pre(name@, mode as nat, size as nat, mtime as nat, typeflag));
        assert(pre@.len() == 512);
        lemma_sum_bytes_bound(pre@);
        lemma_pow8_bound(6);
    }
    let ck = sum_vec(&pre);
    proof {
        reveal_with_fuel(pow8, 7);
        assert(pow8(6) == 262144);
        assert(ck < pow8(6));
    }
    let mut out: Vec<u8> = Vec::new();
    push_range(&mut out, &pre, 0, 148);
    push_oct(&mut out, ck, 6);
    out.push(0);
    out.push(0x20);
    push_range(&mut out, &pre, 156, 512);
    proof {
        assert(pre@.subrange(0, 148) =~= pre@.take(148));
        assert(pre@.subrange(156, 512) =~= pre@.skip(156));
        assert(out@ =~= tar_header_spec(name@, mode as nat, size as nat, mtime as nat, typeflag));
    }
    out
}

/// The header prefix up to and including `i` checksum spaces; the shape
/// the header builder passes through while it writes the space run.
spec fn old_pre_spaces(name: Seq<u8>, mode: nat, size: nat, mtime: nat, i: nat) -> Seq<
    u8,
> {
    name + zeros((100 - name.len()) as nat) + oct_field(mode, 7) + oct_field(0, 7) + oct_field(0, 7)
        + oct_field(size, 11) + oct_field(mtime, 11) + spaces(i)
}

/// One entry of the walked tree, ready to encode: its `/`-separated
/// path relative to the archive root (no trailing slash), whether it is
/// a directory, its permission bits, its modification time, and for
/// files the full contents.
#[derive(Debug)]
pub struct TarEntry {
    pub path: Vec<u8>,
    pub is_directory: bool,
    pub mode: u64,
    pub mtime: u64,
    pub content: Vec<u8>,
}

/// The name under which an entry is stored: directories carry a
/// trailing slash.
pub open spec fn stored_name(e: TarEntry) -> Seq<u8> {
    if e.is_directory {
        e.path@ + seq![0x2Fu8]
    } else {
        e.path@
    }
}

/// The zero padding that brings `n` bytes to a block boundary.
pub open spec fn pad512(n: nat) -> nat {
    if n % 512 == 0 {
        0
    } else {
        (512 - n % 512) as nat
    }
}

/// The size field of an entry: file length, zero for directories.
pub open spec fn entry_size(e: TarEntry) -> nat {
    if e.is_directory {
        0
    } else {
        e.content@.len()
    }
}

/// The type flag of an entry: `5` for directories, `0` for files.
pub open spec fn entry_typeflag(e: TarEntry) -> u8 {
    if e.is_directory {
        0x35
    } else {
        0x30
    }
}

/// The bytes of the name `././@LongLink` that mark a GNU long-name
/// entry.
pub open spec fn longlink_name() -> Seq<u8> {
    seq![
        0x2Eu8,
        0x2Fu8,
        0x2Eu8,
        0x2Fu8,
        0x40u8,
        0x4Cu8,
        0x6Fu8,
        0x6Eu8,
        0x67u8,
        0x4Cu8,
        0x69u8,
        0x6Eu8,
        0x6Bu8,
    ]
}

/// The long-name entry that precedes a header whose stored name does
/// not fit the classic field: a type-`L` header whose data is the full
/// name with a terminating NUL, padded to a block boundary.
pub open spec fn longlink_block(stored: Seq<u8>) -> Seq<u8> {
    tar_header_spec(longlink_name(), 0, (stored.len() + 1) as nat, 0, 0x4C) + stored + seq![0u8]
        + zeros(pad512((stored.len() + 1) as nat))
}

/// The full encoding of one entry: an optional long-name entry, the
/// 512-byte header (name truncated to 100 bytes when a long-name entry
/// carries the rest), and for files the contents padded to a block
/// boundary.
pub open spec fn tar_entry_spec(e: TarEntry) -> Seq<u8> {
    let stored = stored_name(e);
    let long = if stored.len() > 100 {
        longlink_block(stored)
    } else {
        Seq::<u8>::empty()
    };
    let hdr_name = if stored.len() > 100 {
        stored.take(100)
    } else {
        stored
    };
    let data = if e.is_directory {
        Seq::<u8>::empty()
    } else {
        e.content@ + zeros(pad512(e.content@.len()))
    };
    long + tar_header_spec(hdr_name, e.mode as nat, entry_size(e), e.mtime as nat, entry_typeflag(e))
        + data
}

/// The bounds under which an entry encodes: the numeric fields fit
/// their octal widths and the lengths leave room for padding.
pub open spec fn entry_wf(e: TarEntry) -> bool {
    &&& e.mode < pow8(7)
    &&& e.mtime < pow8(11)
    &&& e.content@.len() + 512 < pow8(11)
    &&& e.path@.len() + 2 < pow8(11)
    &&& e.content@.len() + 512 <= usize::MAX
    &&& e.path@.len() + 2 <= usize::MAX
}

/// The padding that brings `n` to a multiple of 512.
fn pad512_exec(n: usize) -> (r: usize)
    ensures
        r == pad512(n as nat),
{
    let m = n % 512;
    if m == 0 {
        0
    } else {
        512 - m
    }
}

/// Encodes one entry of the walk as its tar blocks.
pub fn tar_entry_bytes(e: &TarEntry) -> (r: Vec<u8>)
    requires
        entry_wf(*e),
    ensures
        r@ == tar_entry_spec(*e),
{
    proof {
        lemma_pow8_bound(11);
    }
    let mut stored: Vec<u8> = Vec::new();
    push_all(&mut stored, &e.path);
    if e.is_directory {
        stored.push(0x2F);
    }
    proof {
        assert(stored@ == stored_name(*e));
    }
    let size: u64 = if e.is_directory {
        0
    } else {
        e.content.len() as u64
    };
    let flag: u8 = if e.is_directory {
        0x35
    } else {
        0x30
    };
    let mut out: Vec<u8> = Vec::new();
    if stored.len() > 100 {
        let mut ll_name: Vec<u8> = Vec::new();
        ll_name.push(0x2E);
        ll_name.push(0x2F);
        ll_name.push(0x2E);
        ll_name.push(0x2F);
        ll_name.push(0x40);
        ll_name.push(0x4C);
        ll_name.push(0x6F);
        ll_name.push(0x6E);
        ll_name.push(0x67);
        ll_name.push(0x4C);
        ll_name.push(0x69);
        ll_name.push(0x6E);
        ll_name.push(0x6B);
        proof {
            assert(ll_name@ =~= longlink_name());
        }
        let ll_hdr = tar_header(&ll_name, 0, (stored.len() + 1) as u64, 0, 0x4C);
        push_all(&mut out, &ll_hdr);
        push_all(&mut out, &stored);
        out.push(0);
        push_zeros(&mut out, pad512_exec(stored.len() + 1));
        let mut trunc: Vec<u8> = Vec::new();
        push_range(&mut trunc, &stored, 0, 100);
        proof {
            assert(trunc@ =~= stored_name(*e).take(100));
        }
        let hdr = tar_header(&trunc, e.mode, size, e.mtime, flag);
        push_all(&mut out, &hdr);
    } else {
        let hdr = tar_header(&stored, e.mode, size, e.mtime, flag);
        push_all(&mut out, &hdr);
    }
    if !e.is_directory {
        push_all(&mut out, &e.content);
        push_zeros(&mut out, pad512_exec(e.content.len()));
    }
    proof {
        assert(out@ =~= tar_entry_spec(*e));
    }
    out
}

/// The end-of-archive marker: two 512-byte zero blocks.
pub open spec fn tar_end_spec() -> Seq<u8> {
    zeros(1024)
}

/// The two zero blocks that close an archive.
pub fn tar_end_bytes() -> (r: Vec<u8>)
    ensures
        r@ == tar_end_spec(),
{
    let mut out: Vec<u8> = Vec::new();
    push_zeros(&mut out, 1024);
    proof {
        assert(out@ =~= tar_end_spec());
    }
    out
}

/// The concatenation of the encodings of a run of entries, in order.
pub open spec fn tar_entries_spec(entries: Seq<TarEntry>) -> Seq<u8>
    decreases entries.len(),
{
    if entries.len() == 0 {
        Seq::empty()
    } else {
        tar_entry_spec(entries[0]) + tar_entries_spec(entries.drop_first())
    }
}

/// A whole archive: every entry in walk order, then the end marker.
pub open spec fn tar_stream_spec(entries: Seq<TarEntry>) -> Seq<u8> {
    tar_entries_spec(entries) + tar_end_spec()
}

#[verifier::rlimit(50)]
proof fn lemma_entries_snoc(entries: Seq<TarEntry>, i: int)
    requires
        0 <= i < entries.len(),
    ensures
        tar_entries_spec(entries.take(i + 1)) == tar_entries_spec(entries.take(i)) + tar_entry_spec(
            entries[i],
        ),
    decreases i,
{
    if i == 0 {
        assert(entries.take(1).len() == 1);
        assert(entries.take(1)[0] == entries[0]);
        assert(entries.take(1).drop_first() =~= Seq::<TarEntry>::empty());
        assert(entries.take(0) =~= Seq::<TarEntry>::empty());
        assert(tar_entries_spec(entries.take(1)) =~= tar_entries_spec(entries.take(0))
            + tar_entry_spec(entries[0]));
    } else {
        let tl = entries.drop_first();
        lemma_entries_snoc(tl, i - 1);
        assert(entries.take(i + 1)[0] == entries[0]);
        assert(entries.take(i + 1).drop_first() =~= tl.take(i));
        assert(entries.take(i)[0] == entries[0]);
        assert(entries.take(i).drop_first() =~= tl.take(i - 1));
        assert(tl[i - 1] == entries[i]);
        assert(tar_entries_spec(entries.take(i + 1)) =~= tar_entries_spec(entries.take(i))
            + tar_entry_spec(entries[i]));
    }
}

/// The number a reader recovers from a run of octal digit bytes.
pub open spec fn parse_oct(s: Seq<u8>) -> nat
    decreases s.len(),
{
    if s.len() == 0 {
        0
    } else {
        (parse_oct(s.drop_last()) * 8 + (s.last() - 0x30)) as nat
    }
}

/// Octal fields read back: parsing the digit run written for `n`
/// recovers `n`.
pub proof fn lemma_oct_round_trip(n: nat, width: nat)
    requires
        n < pow8(width),
    ensures
        parse_oct(oct_digits(n, width)) == n,
    decreases width,
{
    if width == 0 {
        assert(n == 0);
    } else {
        let od = oct_digits(n, width);
        assert forall|i: int| 0 <= i < width - 1 implies od[i] == oct_digits(
            n / 8,
            (width - 1) as nat,
        )[i] by {
            let k = (width - 2 - i) as nat;
            lemma_pow8_le(0, k);
            lemma_div_denominator(n as int, 8, pow8(k) as int);
            assert(pow8((k + 1) as nat) == 8 * pow8(k));
        }
        assert(od.drop_last() =~= oct_digits(n / 8, (width - 1) as nat));
        assert(od.last() == od[width as int - 1]);
        assert(pow8(0) == 1);
        assert(od[width as int - 1] == (0x30 + (n / pow8(0)) % 8) as u8);
        assert(n / pow8(0) == n);
        assert(od.last() == (0x30 + n % 8) as u8);
        assert(n / 8 < pow8((width - 1) as nat)) by {
            assert(pow8(width) == 8 * pow8((width - 1) as nat));
        }
        lemma_oct_round_trip(n / 8, (width - 1) as nat);
        assert(parse_oct(od) == (n / 8) * 8 + n % 8);
    }
}

/// The checksum a reader verifies — the byte sum of the header with
/// the checksum field read as spaces — parses back from the checksum
/// field of every header written here.
pub proof fn lemma_tar_checksum_valid(
    name: Seq<u8>,
    mode: nat,
    size: nat,
    mtime: nat,
    typeflag: u8,
)
    requires
        name.len() <= 100,
    ensures
        ({
            let h = tar_header_spec(name, mode, size, mtime, typeflag);
            parse_oct(h.subrange(148, 154)) == sum_bytes(h.take(148) + spaces(8) + h.skip(156))
        }),
{
    let pre = header_pre(name, mode, size, mtime, typeflag);
    let h = tar_header_spec(name, mode, size, mtime, typeflag);
    assert(pre.len() == 512);
    assert(h.take(148) =~= pre.take(148));
    assert(h.skip(156) =~= pre.skip(156));
    assert(pre.take(148) + spaces(8) + pre.skip(156) =~= pre);
    lemma_sum_bytes_bound(pre);
    reveal_with_fuel(pow8, 7);
    assert(h.subrange(148, 154) =~= oct_digits(sum_bytes(pre), 6));
    lemma_oct_round_trip(sum_bytes(pre), 6);
}

/// What a tar reader recovers from the encoded blocks of one entry
/// whose stored name fits the classic field: the name field holds the
/// stored name NUL-padded, the size field parses to the entry size,
/// the type flag tells directories from files, and for files the
/// contents follow the header byte for byte. Reading an entry back
/// yields exactly the path, the kind and the contents that went in.
pub proof fn lemma_tar_entry_readback(e: TarEntry)
    requires
        entry_wf(e),
        stored_name(e).len() <= 100,
    ensures
        ({
            let b = tar_entry_spec(e);
            let stored = stored_name(e);
            &&& b.len() == 512 + (if e.is_directory {
                0int
            } else {
                e.content@.len() + pad512(e.content@.len()) as int
            })
            &&& b.subrange(0, stored.len() as int) == stored
            &&& (forall|j: int| stored.len() <= j < 100 ==> b[j] == 0)
            &&& parse_oct(b.subrange(124, 135)) == entry_size(e)
            &&& b[156] == entry_typeflag(e)
            &&& (!e.is_directory ==> b.subrange(512, 512 + e.content@.len() as int) == e.content@)
        }),
{
    let stored = stored_name(e);
    let size = entry_size(e);
    let flag = entry_typeflag(e);
    let pre = header_pre(stored, e.mode as nat, size, e.mtime as nat, flag);
    let h = tar_header_spec(stored, e.mode as nat, size, e.mtime as nat, flag);
    let b = tar_entry_spec(e);
    assert(pre.len() == 512);
    assert(h.len() == 512);
    assert(b =~= h + (if e.is_directory {
        Seq::<u8>::empty()
    } else {
        e.content@ + zeros(pad512(e.content@.len()))
    }));
    assert(b.subrange(0, stored.len() as int) =~= stored);
    assert(forall|j: int| stored.len() <= j < 100 ==> b[j] == 0);
    assert(b.subrange(124, 135) =~= oct_digits(size, 11));
    lemma_pow8_bound(11);
    lemma_oct_round_trip(size, 11);
    assert(b[156] == flag);
    if !e.is_directory {
        assert(b.subrange(512, 512 + e.content@.len() as int) =~= e.content@);
    }
}

/// A block of nothing but zeros: how a reader recognizes the end
/// marker.
pub open spec fn is_zero_block(b: Seq<u8>) -> bool {
    forall|i: int| 0 <= i < b.len() ==> b[i] == 0
}

/// The stored name a reader takes from the name field: the bytes up to
/// the first NUL.
pub open spec fn name_until_nul(f: Seq<u8>) -> Seq<u8>
    decreases f.len(),
{
    if f.len() == 0 || f[0] == 0 {
        Seq::empty()
    } else {
        seq![f[0]] + name_until_nul(f.drop_first())
    }
}

proof fn lemma_name_until_nul(f: Seq<u8>, n: int)
    requires
        0 <= n <= f.len(),
        forall|i: int| 0 <= i < n ==> f[i] != 0,
        n == f.len() || f[n] == 0,
    ensures
        name_until_nul(f) == f.take(n),
    decreases f.len(),
{
    if n == 0 {
        assert(f.take(0) =~= Seq::<u8>::empty());
    } else {
        lemma_name_until_nul(f.drop_first(), n - 1);
        assert(f.take(n) =~= seq![f[0]] + f.drop_first().take(n - 1));
    }
}

/// The bytes that carry `size` content bytes: the contents and their
/// block padding.
pub open spec fn content_block_len(size: nat) -> nat {
    size + pad512(size)
}

/// What a reader recovers from a stream, entry after entry: the stored
/// name up to the first NUL of the name field, whether the type flag
/// marks a directory, and the announced number of content bytes. A
/// type-`L` entry is not an entry of its own: its data names the entry
/// that follows it. A short, truncated or all-zero leading block ends
/// the walk.
pub open spec fn parse_tar(b: Seq<u8>) -> Seq<(Seq<u8>, bool, Seq<u8>)> {
    parse_tar_entries(b, Option::None)
}

/// The reader's walk, carrying the long name a type-`L` entry
/// announced for the entry that follows it.
pub open spec fn parse_tar_entries(b: Seq<u8>, pending: Option<Seq<u8>>) -> Seq<
    (Seq<u8>, bool, Seq<u8>),
>
    decreases b.len(),
{
    if b.len() < 512 || is_zero_block(b.take(512)) {
        Seq::empty()
    } else {
        let size = parse_oct(b.subrange(124, 135));
        let used = 512 + content_block_len(size);
        if used <= b.len() {
            if b[156] == 0x4C {
                let long = name_until_nul(b.subrange(512, 512 + size as int));
                parse_tar_entries(b.skip(used as int), Option::Some(long))
            } else {
                let name = match pending {
                    Option::Some(p) => p,
                    Option::None => name_until_nul(b.take(100)),
                };
                seq![(name, b[156] == 0x35, b.subrange(512, 512 + size as int))]
                    + parse_tar_entries(b.skip(used as int), Option::None)
            }
        } else {
            Seq::empty()
        }
    }
}

/// What reading one entry back should yield: its stored name, its
/// kind, and for files its contents.
pub open spec fn entry_readback_view(e: TarEntry) -> (Seq<u8>, bool, Seq<u8>) {
    (
        stored_name(e),
        e.is_directory,
        if e.is_directory {
            Seq::<u8>::empty()
        } else {
            e.content@
        },
    )
}

/// The expected readback of a whole walk, in order.
pub open spec fn readback_views(entries: Seq<TarEntry>) -> Seq<(Seq<u8>, bool, Seq<u8>)>
    decreases entries.len(),
{
    if entries.len() == 0 {
        Seq::empty()
    } else {
        seq![entry_readback_view(entries[0])] + readback_views(entries.drop_first())
    }
}

/// An entry a reader can recover in full: well formed, its path
/// non-empty and free of NUL bytes. Its length is not bounded: a
/// stored name beyond the classic field travels in a type-`L` entry.
pub open spec fn entry_parseable(e: TarEntry) -> bool {
    &&& entry_wf(e)
    &&& e.path@.len() > 0
    &&& (forall|i: int| 0 <= i < e.path@.len() ==> e.path@[i] != 0)
}

/// The fields a reader finds in one written header: the name
/// NUL-padded in the first 100 bytes, the size parsing back from its
/// octal field, the type flag at its offset.
proof fn lemma_tar_header_fields(name: Seq<u8>, mode: nat, size: nat, mtime: nat, typeflag: u8)
    requires
        name.len() <= 100,
        size < pow8(11),
    ensures
        ({
            let h = tar_header_spec(name, mode, size, mtime, typeflag);
            &&& h.len() == 512
            &&& h.subrange(0, name.len() as int) == name
            &&& (forall|j: int| name.len() <= j < 100 ==> h[j] == 0)
            &&& parse_oct(h.subrange(124, 135)) == size
            &&& h[156] == typeflag
        }),
{
    let pre = header_pre(name, mode, size, mtime, typeflag);
    let h = tar_header_spec(name, mode, size, mtime, typeflag);
    assert(pre.len() == 512);
    assert(h.len() == 512);
    assert(h.subrange(0, name.len() as int) =~= name);
    assert(forall|j: int| name.len() <= j < 100 ==> h[j] == 0);
    assert(h.subrange(124, 135) =~= oct_digits(size, 11));
    lemma_oct_round_trip(size, 11);
    assert(h[156] == typeflag);
}

/// The round trip: parsing a stream written for a walk recovers, entry
/// for entry and in order, exactly the stored names, the directory
/// distinction and the file contents that were encoded — names beyond
/// the classic field through their type-`L` entries included.
pub proof fn lemma_tar_round_trip(entries: Seq<TarEntry>)
    requires
        forall|i: int| 0 <= i < entries.len() ==> entry_parseable(#[trigger] entries[i]),
    ensures
        parse_tar(tar_stream_spec(entries)) == readback_views(entries),
{
    lemma_tar_round_trip_aux(entries);
}

#[verifier::rlimit(100)]
proof fn lemma_tar_round_trip_aux(entries: Seq<TarEntry>)
    requires
        forall|i: int| 0 <= i < entries.len() ==> entry_parseable(#[trigger] entries[i]),
    ensures
        parse_tar_entries(tar_stream_spec(entries), Option::None) == readback_views(entries),
    decreases entries.len(),
{
    let s = tar_stream_spec(entries);
    if entries.len() == 0 {
        assert(s =~= zeros(1024));
        assert(is_zero_block(s.take(512)));
    } else {
        let e = entries[0];
        let rest = entries.drop_first();
        let be = tar_entry_spec(e);
        let stored = stored_name(e);
        let size = entry_size(e);
        let flag = entry_typeflag(e);
        let cbl = content_block_len(size);
        let data = if e.is_directory {
            Seq::<u8>::empty()
        } else {
            e.content@ + zeros(pad512(e.content@.len()))
        };
        lemma_pow8_bound(11);
        lemma_tar_entries_nonneg(rest);
        assert(s =~= be + tar_stream_spec(rest));
        assert forall|i: int| 0 <= i < stored.len() implies stored[i] != 0 by {
            if i < e.path@.len() {
                assert(stored[i] == e.path@[i]);
            }
        }
        if stored.len() <= 100 {
            lemma_tar_header_fields(stored, e.mode as nat, size, e.mtime as nat, flag);
            let h = tar_header_spec(stored, e.mode as nat, size, e.mtime as nat, flag);
            assert(be =~= h + data);
            assert(be.len() == 512 + cbl) by {
                if e.is_directory {
                    assert(pad512(0) == 0);
                }
            }
            assert(h[0] == stored[0]) by {
                assert(h.subrange(0, stored.len() as int)[0] == stored[0]);
            }
            assert(s[0] == h[0]);
            assert(s.take(512)[0] == s[0]);
            assert(!is_zero_block(s.take(512)));
            assert(s.subrange(124, 135) =~= h.subrange(124, 135));
            assert(s[156] == h[156]);
            assert(flag != 0x4C);
            assert((s[156] == 0x35) == e.is_directory);
            assert(s.take(100) =~= h.take(100));
            assert forall|i: int| 0 <= i < stored.len() implies h.take(100)[i] != 0 by {
                assert(h.take(100)[i] == h.subrange(0, stored.len() as int)[i]);
            }
            lemma_name_until_nul(h.take(100), stored.len() as int);
            assert(h.take(100).take(stored.len() as int) =~= stored);
            let used = 512 + cbl;
            assert(used <= s.len());
            assert(s.subrange(512, 512 + size as int) =~= (if e.is_directory {
                Seq::<u8>::empty()
            } else {
                e.content@
            }));
            assert(s.skip(used as int) =~= tar_stream_spec(rest));
            lemma_tar_round_trip_aux(rest);
            assert(parse_tar_entries(s, Option::None) =~= readback_views(entries));
        } else {
            let llsize = (stored.len() + 1) as nat;
            assert(llsize < pow8(11));
            lemma_tar_header_fields(longlink_name(), 0, llsize, 0, 0x4C);
            let ll = tar_header_spec(longlink_name(), 0, llsize, 0, 0x4C);
            let lldata = stored + seq![0u8] + zeros(pad512(llsize));
            let trunc = stored.take(100);
            lemma_tar_header_fields(trunc, e.mode as nat, size, e.mtime as nat, flag);
            let h2 = tar_header_spec(trunc, e.mode as nat, size, e.mtime as nat, flag);
            assert(be =~= ll + lldata + h2 + data);
            assert(lldata.len() == content_block_len(llsize));
            // The leading block is the long-name header.
            assert(ll[0] == 0x2E) by {
                assert(ll.subrange(0, 13)[0] == longlink_name()[0]);
            }
            assert(s[0] == ll[0]);
            assert(s.take(512)[0] == s[0]);
            assert(!is_zero_block(s.take(512)));
            assert(s.subrange(124, 135) =~= ll.subrange(124, 135));
            assert(parse_oct(s.subrange(124, 135)) == llsize);
            assert(s[156] == ll[156]);
            assert(s[156] == 0x4C);
            let used1 = 512 + content_block_len(llsize);
            assert(used1 <= s.len());
            // Its data is the full stored name with a trailing NUL.
            assert(s.subrange(512, 512 + llsize as int) =~= stored + seq![0u8]);
            lemma_name_until_nul(stored + seq![0u8], stored.len() as int);
            assert((stored + seq![0u8]).take(stored.len() as int) =~= stored);
            let s2 = s.skip(used1 as int);
            assert(s2 =~= h2 + data + tar_stream_spec(rest));
            // The real header follows, named by the pending long name.
            assert(h2[0] == trunc[0]) by {
                assert(h2.subrange(0, 100)[0] == trunc[0]);
            }
            assert(trunc[0] == stored[0]);
            assert(s2[0] == h2[0]);
            assert(s2.take(512)[0] == s2[0]);
            assert(!is_zero_block(s2.take(512)));
            assert(s2.subrange(124, 135) =~= h2.subrange(124, 135));
            assert(parse_oct(s2.subrange(124, 135)) == size);
            assert(s2[156] == h2[156]);
            assert(flag != 0x4C);
            assert((s2[156] == 0x35) == e.is_directory);
            let used2 = 512 + cbl;
            assert(h2.len() + data.len() == used2) by {
                if e.is_directory {
                    assert(pad512(0) == 0);
                }
            }
            assert(used2 <= s2.len());
            assert(s2.subrange(512, 512 + size as int) =~= (if e.is_directory {
                Seq::<u8>::empty()
            } else {
                e.content@
            }));
            assert(s2.skip(used2 as int) =~= tar_stream_spec(rest));
            lemma_tar_round_trip_aux(rest);
            assert(parse_tar_entries(s, Option::None) == parse_tar_entries(
                s2,
                Option::Some(stored),
            ));
            assert(parse_tar_entries(s2, Option::Some(stored)) =~= readback_views(entries));
        }
    }
}

proof fn lemma_tar_entries_nonneg(entries: Seq<TarEntry>)
    ensures
        tar_stream_spec(entries).len() >= 1024,
    decreases entries.len(),
{
}

/// Every encoded entry is a whole number of 512-byte blocks.
pub proof fn lemma_tar_entry_block_aligned(e: TarEntry)
    ensures
        tar_entry_spec(e).len() % 512 == 0,
{
    let stored = stored_name(e);
    if stored.len() > 100 {
        assert(longlink_block(stored).len() % 512 == 0) by {
            let n = (stored.len() + 1) as nat;
            assert(n == 512 * (n / 512) + n % 512);
        }
    }
    if !e.is_directory {
        let n = e.content@.len();
        assert((n + pad512(n)) % 512 == 0) by {
            assert(n == 512 * (n / 512) + n % 512);
        }
    }
}

/// A whole stream is a whole number of 512-byte blocks: what lets a
/// consumer take it chunk by chunk and a reader walk it block by
/// block.
pub proof fn lemma_tar_stream_block_aligned(entries: Seq<TarEntry>)
    ensures
        tar_stream_spec(entries).len() % 512 == 0,
    decreases entries.len(),
{
    lemma_tar_entries_block_aligned(entries);
}

proof fn lemma_tar_entries_block_aligned(entries: Seq<TarEntry>)
    ensures
        tar_entries_spec(entries).len() % 512 == 0,
    decreases entries.len(),
{
    if entries.len() > 0 {
        lemma_tar_entry_block_aligned(entries[0]);
        lemma_tar_entries_block_aligned(entries.drop_first());
    }
}

/// Encodes a whole walk as one archive, entries in the given order,
/// closed by the end marker.
pub fn tar_archive_bytes(entries: &Vec<TarEntry>) -> (r: Vec<u8>)
    requires
        forall|i: int| 0 <= i < entries@.len() ==> entry_wf(#[trigger] entries@[i]),
    ensures
        r@ == tar_stream_spec(entries@),
{
    let mut out: Vec<u8> = Vec::new();
    let n = entries.len();
    let mut i: usize = 0;
    while i < n
        invariant
            0 <= i <= n,
            n == entries@.len(),
            forall|j: int| 0 <= j < entries@.len() ==> entry_wf(#[trigger] entries@[j]),
            out@ == tar_entries_spec(entries@.take(i as int)),
        decreases n - i,
    {
        let chunk = tar_entry_bytes(&entries[i]);
        push_all(&mut out, &chunk);
        proof {
            lemma_entries_snoc(entries@, i as int);
        }
        i = i + 1;
    }
    proof {
        assert(entries@.take(n as int) =~= entries@);
    }
    let end = tar_end_bytes();
    push_all(&mut out, &end);
    out
}

} // verus!
