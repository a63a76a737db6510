use vstd::prelude::*;
use vstd::string::StringExecFns;
use vstd::arithmetic::div_mod::{lemma_fundamental_div_mod, lemma_mod_multiples_vanish, lemma_small_mod};

verus! {

/// How listing numbers are written: base, and group counts and widths for
/// addresses and entries.
#[derive(Clone, Copy, Debug)]
pub struct ListingConfig {
    /// Numeric base: 8 or 16.
    pub base: u8,
    /// Number of groups in an address (2 for `ffff.ffff`).
    pub addr_groups: usize,
    /// Digits in each address group.
    pub addr_group_width: usize,
    /// Number of groups in an entry.
    pub entry_groups: usize,
    /// Digits in each entry group.
    pub entry_group_width: usize,
}

/// One listing line: an address, its raw bytes and its text.
#[derive(Clone, Debug)]
pub struct ListingEntry {
    pub address: u64,
    pub bytes: Vec<u8>,
    pub text: String,
}

/// Bits that one digit of `base` stands for: 3 in octal, 4 otherwise.
pub open spec fn digit_bits(base: u8) -> nat {
    if base == 8 {
        3
    } else {
        4
    }
}

/// `v` with its `k` lowest digits in base `b` dropped.
pub open spec fn shifted(v: nat, b: nat, k: nat) -> nat
    decreases k,
{
    if k == 0 {
        v
    } else {
        shifted(v, b, (k - 1) as nat) / b
    }
}

/// Bytes needed for `groups` groups of `width` digits.
pub open spec fn grouped_byte_len(base: u8, width: nat, groups: nat) -> nat {
    (digit_bits(base) * width * groups + 7) / 8
}

impl ListingConfig {
    pub fn new_hex(
        addr_groups: usize,
        addr_group_width: usize,
        entry_groups: usize,
        entry_group_width: usize,
    ) -> (r: Self)
        ensures
            r.base == 16,
            r.addr_groups == addr_groups,
            r.addr_group_width == addr_group_width,
            r.entry_groups == entry_groups,
            r.entry_group_width == entry_group_width,
    {
        ListingConfig { base: 16, addr_groups, addr_group_width, entry_groups, entry_group_width }
    }

    pub fn new_octal(
        addr_groups: usize,
        addr_group_width: usize,
        entry_groups: usize,
        entry_group_width: usize,
    ) -> (r: Self)
        ensures
            r.base == 8,
            r.addr_groups == addr_groups,
            r.addr_group_width == addr_group_width,
            r.entry_groups == entry_groups,
            r.entry_group_width == entry_group_width,
    {
        ListingConfig { base: 8, addr_groups, addr_group_width, entry_groups, entry_group_width }
    }

    /// Bits in one entry group.
    pub fn group_bits(&self) -> (r: usize)
        requires
            digit_bits(self.base) * self.entry_group_width <= usize::MAX,
        ensures
            r == digit_bits(self.base) * self.entry_group_width,
    {
        let bits_per_digit: usize = if self.base == 16 {
            4
        } else if self.base == 8 {
            3
        } else {
            4
        };
        bits_per_digit * self.entry_group_width
    }
}

/// The big-endian bytes of the low `groups * group_width` digits of `value`,
/// each digit standing for `digit_bits(base)` bits, rounded up to whole bytes.
pub fn grouped_value_to_bytes(value: u128, base: u8, group_width: usize, groups: usize) -> (r: Vec<u8>)
    requires
        digit_bits(base) * group_width <= usize::MAX,
        digit_bits(base) * group_width * groups + 7 <= usize::MAX,
    ensures
        r@.len() == grouped_byte_len(base, group_width as nat, groups as nat),
        forall|j: int|
            0 <= j < r@.len() ==> #[trigger] r@[j] == (shifted(value as nat, 256, (r@.len() - 1 - j) as nat) % 256) as u8,
{
    let mut out: Vec<u8> = Vec::new();
    let bits_per_digit: usize = if base == 16 {
        4
    } else if base == 8 {
        3
    } else {
        4
    };
    let group_bits: usize = bits_per_digit * group_width;
    proof {
        assert(group_bits * groups + 7 <= usize::MAX);
    }
    let total_bits: usize = group_bits * groups;
    if total_bits == 0 {
        return out;
    }
    let total_bytes: usize = (total_bits + 7) / 8;
    let mut cur: u128 = value;
    let mut i: usize = 0;
    while i < total_bytes
        invariant
            i <= total_bytes,
            out@.len() == i,
            cur as nat == shifted(value as nat, 256, i as nat),
            forall|j: int| 0 <= j < i ==> #[trigger] out@[j] == (shifted(value as nat, 256, (i - 1 - j) as nat) % 256) as u8,
        decreases total_bytes - i,
    {
        out.insert(0, (cur % 256) as u8);
        cur = cur / 256;
        i += 1;
    }
    out
}

/// The lower-case digit for `d` (below 16).
pub open spec fn digit_of(d: nat) -> char {
    if d < 8 {
        if d < 4 {
            if d == 0 { '0' } else if d == 1 { '1' } else if d == 2 { '2' } else { '3' }
        } else {
            if d == 4 { '4' } else if d == 5 { '5' } else if d == 6 { '6' } else { '7' }
        }
    } else if d < 12 {
        if d == 8 { '8' } else if d == 9 { '9' } else if d == 10 { 'a' } else { 'b' }
    } else {
        if d == 12 { 'c' } else if d == 13 { 'd' } else if d == 14 { 'e' } else { 'f' }
    }
}

/// The `w` lowest base-`b` digits of `v`, most significant first.
pub open spec fn group_text(v: nat, b: nat, w: nat) -> Seq<char>
    decreases w,
{
    if w == 0 {
        seq![]
    } else {
        group_text(v / b, b, (w - 1) as nat).push(digit_of(v % b))
    }
}

/// The `groups * w` lowest base-`b` digits of `v`, most significant first,
/// with a dot between each group of `w`.
pub open spec fn grouped_text(v: nat, b: nat, groups: nat, w: nat) -> Seq<char>
    decreases groups,
{
    if groups == 0 {
        seq![]
    } else if groups == 1 {
        group_text(v, b, w)
    } else {
        grouped_text(shifted(v, b, w), b, (groups - 1) as nat, w) + seq!['.'] + group_text(v, b, w)
    }
}

/// Relies on String::push: appends one character.
#[verifier::external_body]
fn push_char(s: &mut String, c: char)
    ensures
        final(s)@ == old(s)@.push(c),
{
    s.push(c);
}

fn digit_char(d: u128) -> (c: char)
    requires
        d < 16,
    ensures
        c == digit_of(d as nat),
{
    if d < 8 {
        if d < 4 {
            if d == 0 { '0' } else if d == 1 { '1' } else if d == 2 { '2' } else { '3' }
        } else {
            if d == 4 { '4' } else if d == 5 { '5' } else if d == 6 { '6' } else { '7' }
        }
    } else if d < 12 {
        if d == 8 { '8' } else if d == 9 { '9' } else if d == 10 { 'a' } else { 'b' }
    } else {
        if d == 12 { 'c' } else if d == 13 { 'd' } else if d == 14 { 'e' } else { 'f' }
    }
}

fn shift_digits(v: u128, b: u128, k: usize) -> (r: u128)
    requires
        b > 0,
    ensures
        r as nat == shifted(v as nat, b as nat, k as nat),
{
    let mut cur: u128 = v;
    let mut i: usize = 0;
    while i < k
        invariant
            i <= k,
            b > 0,
            cur as nat == shifted(v as nat, b as nat, i as nat),
        decreases k - i,
    {
        cur = cur / b;
        i += 1;
    }
    cur
}

fn push_group(out: &mut String, v: u128, b: u128, w: usize)
    requires
        b == 8 || b == 16,
    ensures
        final(out)@ == old(out)@ + group_text(v as nat, b as nat, w as nat),
    decreases w,
{
    if w == 0 {
        assert(old(out)@ + group_text(v as nat, b as nat, 0) =~= old(out)@);
        return;
    }
    let ghost before = out@;
    push_group(out, v / b, b, w - 1);
    push_char(out, digit_char(v % b));
    assert(out@ =~= before + group_text(v as nat, b as nat, w as nat));
}

fn push_grouped(out: &mut String, v: u128, b: u128, groups: usize, w: usize)
    requires
        b == 8 || b == 16,
    ensures
        final(out)@ == old(out)@ + grouped_text(v as nat, b as nat, groups as nat, w as nat),
    decreases groups,
{
    let ghost before = out@;
    if groups == 0 {
        assert(before + grouped_text(v as nat, b as nat, 0, w as nat) =~= before);
        return;
    }
    if groups > 1 {
        push_grouped(out, shift_digits(v, b, w), b, groups - 1, w);
        push_char(out, '.');
    }
    push_group(out, v, b, w);
    assert(out@ =~= before + grouped_text(v as nat, b as nat, groups as nat, w as nat));
}

/// `value` as `groups` dot-separated groups of `group_width` zero-padded
/// digits in the configured base.
pub fn format_grouped_number(value: u128, cfg: ListingConfig, groups: usize, group_width: usize) -> (r: String)
    requires
        cfg.base == 8 || cfg.base == 16,
    ensures
        r@ == grouped_text(value as nat, cfg.base as nat, groups as nat, group_width as nat),
{
    let mut out = String::new();
    push_grouped(&mut out, value, cfg.base as u128, groups, group_width);
    assert(out@ =~= grouped_text(value as nat, cfg.base as nat, groups as nat, group_width as nat));
    out
}

/// The number that `s` spells as big-endian bytes.
pub open spec fn be_value(s: Seq<u8>) -> nat
    decreases s.len(),
{
    if s.len() == 0 {
        0
    } else {
        be_value(s.drop_last()) * 256 + s.last() as nat
    }
}

pub open spec fn low128(v: nat) -> nat {
    v % (0x1_0000_0000_0000_0000_0000_0000_0000 * 256)
}

/// One line of an assembly listing: address, entry value, and the text if
/// there is any.
pub open spec fn asm_line(e: ListingEntry, cfg: ListingConfig) -> Seq<char> {
    let addr = grouped_text(e.address as nat, cfg.base as nat, cfg.addr_groups as nat, cfg.addr_group_width as nat);
    let entry = grouped_text(low128(be_value(e.bytes@)), cfg.base as nat, cfg.entry_groups as nat, cfg.entry_group_width as nat);
    if e.text@.len() == 0 {
        addr + seq![' '] + entry + seq!['\n']
    } else {
        addr + seq![' '] + entry + seq![' '] + e.text@ + seq!['\n']
    }
}

pub open spec fn asm_text(es: Seq<ListingEntry>, cfg: ListingConfig) -> Seq<char>
    decreases es.len(),
{
    if es.len() == 0 {
        seq![]
    } else {
        asm_text(es.drop_last(), cfg) + asm_line(es.last(), cfg)
    }
}

proof fn lemma_low128_step(p: nat, b: nat)
    requires
        b < 256,
    ensures
        (p % 0x1_0000_0000_0000_0000_0000_0000_0000) * 256 + b == low128(p * 256 + b),
{
    let m: int = 0x1_0000_0000_0000_0000_0000_0000_0000;
    let big: int = m * 256;
    lemma_fundamental_div_mod(p as int, m);
    let q = p as int / m;
    let r = p as int % m;
    assert(p * 256 + b == big * q + (r * 256 + b)) by (nonlinear_arith)
        requires
            p == m * q + r,
            big == m * 256,
    ;
    lemma_mod_multiples_vanish(q, r * 256 + b, big);
    lemma_small_mod((r * 256 + b) as nat, big as nat);
}

/// The big-endian value of `bytes`, keeping its low 128 bits.
fn entry_value(bytes: &Vec<u8>) -> (r: u128)
    ensures
        r as nat == low128(be_value(bytes@)),
{
    let mut val: u128 = 0;
    let mut i: usize = 0;
    proof {
        assert(bytes@.subrange(0, 0) =~= Seq::<u8>::empty());
        lemma_small_mod(0, 0x1_0000_0000_0000_0000_0000_0000_0000 * 256);
    }
    while i < bytes.len()
        invariant
            i <= bytes@.len(),
            val as nat == low128(be_value(bytes@.subrange(0, i as int))),
        decreases bytes@.len() - i,
    {
        let b = bytes[i];
        proof {
            let pre = bytes@.subrange(0, i as int);
            let nxt = bytes@.subrange(0, i + 1);
            assert(nxt.drop_last() =~= pre);
            lemma_low128_step(be_value(pre), b as nat);
            assert(low128(be_value(pre)) % 0x1_0000_0000_0000_0000_0000_0000_0000 == be_value(pre)
                % 0x1_0000_0000_0000_0000_0000_0000_0000) by {
                vstd::arithmetic::div_mod::lemma_mod_mod(
                    be_value(pre) as int,
                    0x1_0000_0000_0000_0000_0000_0000_0000,
                    256,
                );
            }
        }
        val = (val % 0x1_0000_0000_0000_0000_0000_0000_0000) * 256 + b as u128;
        i += 1;
    }
    assert(bytes@.subrange(0, bytes@.len() as int) =~= bytes@);
    val
}

/// An assembly listing: one line per entry, address and entry value in
/// dotted groups, then the entry's text.
pub fn print_asm_listing(entries: &[ListingEntry], cfg: ListingConfig) -> (r: String)
    requires
        cfg.base == 8 || cfg.base == 16,
    ensures
        r@ == asm_text(entries@, cfg),
{
    let mut s = String::new();
    let mut i: usize = 0;
    while i < entries.len()
        invariant
            i <= entries@.len(),
            cfg.base == 8 || cfg.base == 16,
            s@ == asm_text(entries@.subrange(0, i as int), cfg),
        decreases entries@.len() - i,
    {
        let e = &entries[i];
        let ghost before = s@;
        push_grouped(&mut s, e.address as u128, cfg.base as u128, cfg.addr_groups, cfg.addr_group_width);
        push_char(&mut s, ' ');
        let val = entry_value(&e.bytes);
        push_grouped(&mut s, val, cfg.base as u128, cfg.entry_groups, cfg.entry_group_width);
        if e.text.unicode_len() != 0 {
            push_char(&mut s, ' ');
            s.append(e.text.as_str());
        }
        push_char(&mut s, '\n');
        proof {
            let nxt = entries@.subrange(0, i + 1);
            assert(nxt.drop_last() =~= entries@.subrange(0, i as int));
            assert(s@ =~= before + asm_line(*e, cfg));
        }
        i += 1;
    }
    assert(entries@.subrange(0, entries@.len() as int) =~= entries@);
    s
}

/// One comment line of a detached listing: the address in dotted groups
/// and the text, or the text alone for an entry at address zero.
pub open spec fn detached_line(e: ListingEntry, cfg: ListingConfig) -> Seq<char> {
    if e.address != 0 {
        grouped_text(e.address as nat, cfg.base as nat, cfg.addr_groups as nat, cfg.addr_group_width as nat)
            + seq![' '] + e.text@ + seq!['\n']
    } else {
        e.text@ + seq!['\n']
    }
}

pub open spec fn detached_comments(es: Seq<ListingEntry>, cfg: ListingConfig) -> Seq<char>
    decreases es.len(),
{
    if es.len() == 0 {
        seq![]
    } else {
        detached_comments(es.drop_last(), cfg) + detached_line(es.last(), cfg)
    }
}

/// The raw image after placing `e`: zero-filled up to its address, then its
/// bytes appended. Entries at address zero place nothing.
pub open spec fn place(raw: Seq<u8>, e: ListingEntry) -> Seq<u8> {
    let off = (#[verifier::truncate] (e.address as usize)) as int;
    if e.address == 0 {
        raw
    } else if raw.len() < off {
        raw + Seq::new((off - raw.len()) as nat, |_i: int| 0u8) + e.bytes@
    } else {
        raw + e.bytes@
    }
}

pub open spec fn detached_raw(es: Seq<ListingEntry>) -> Seq<u8>
    decreases es.len(),
{
    if es.len() == 0 {
        seq![]
    } else {
        place(detached_raw(es.drop_last()), es.last())
    }
}

/// A detached listing: the comment text, and the raw image with each
/// entry's bytes at its address.
pub fn print_detached_listing(entries: &[ListingEntry], cfg: ListingConfig) -> (r: (String, Vec<u8>))
    requires
        cfg.base == 8 || cfg.base == 16,
    ensures
        r.0@ == detached_comments(entries@, cfg),
        r.1@ == detached_raw(entries@),
{
    let mut comments = String::new();
    let mut raw: Vec<u8> = Vec::new();
    let mut i: usize = 0;
    while i < entries.len()
        invariant
            i <= entries@.len(),
            cfg.base == 8 || cfg.base == 16,
            comments@ == detached_comments(entries@.subrange(0, i as int), cfg),
            raw@ == detached_raw(entries@.subrange(0, i as int)),
        decreases entries@.len() - i,
    {
        let e = &entries[i];
        let ghost c0 = comments@;
        let ghost r0 = raw@;
        if e.address != 0 {
            push_grouped(&mut comments, e.address as u128, cfg.base as u128, cfg.addr_groups, cfg.addr_group_width);
            push_char(&mut comments, ' ');
            comments.append(e.text.as_str());
            push_char(&mut comments, '\n');
            let offset = #[verifier::truncate] (e.address as usize);
            while raw.len() < offset
                invariant
                    r0.len() <= raw@.len(),
                    r0.len() < offset ==> raw@.len() <= offset,
                    r0.len() >= offset ==> raw@.len() == r0.len(),
                    raw@ == r0 + Seq::new((raw@.len() - r0.len()) as nat, |_i: int| 0u8),
                decreases offset - raw@.len(),
            {
                raw.push(0);
                assert(raw@ =~= r0 + Seq::new((raw@.len() - r0.len()) as nat, |_i: int| 0u8));
            }
            let ghost r1 = raw@;
            let mut j: usize = 0;
            while j < e.bytes.len()
                invariant
                    j <= e.bytes@.len(),
                    raw@ == r1 + e.bytes@.subrange(0, j as int),
                decreases e.bytes@.len() - j,
            {
                raw.push(e.bytes[j]);
                j += 1;
                assert(raw@ =~= r1 + e.bytes@.subrange(0, j as int));
            }
            proof {
                assert(e.bytes@.subrange(0, e.bytes@.len() as int) =~= e.bytes@);
                if r0.len() < offset {
                    assert(raw@ =~= place(r0, *e));
                } else {
                    assert(r1 =~= r0);
                    assert(raw@ =~= place(r0, *e));
                }
            }
        } else {
            comments.append(e.text.as_str());
            push_char(&mut comments, '\n');
        }
        proof {
            let nxt = entries@.subrange(0, i + 1);
            assert(nxt.drop_last() =~= entries@.subrange(0, i as int));
            assert(comments@ =~= c0 + detached_line(*e, cfg));
            assert(raw@ =~= place(r0, *e));
        }
        i += 1;
    }
    assert(entries@.subrange(0, entries@.len() as int) =~= entries@);
    (comments, raw)
}

/// How many hex digits `v` has (one for zero).
pub open spec fn hex_len(v: nat) -> nat
    decreases v,
{
    if v < 16 {
        1
    } else {
        1 + hex_len(v / 16)
    }
}

pub open spec fn pow16(n: nat) -> nat
    decreases n,
{
    if n == 0 {
        1
    } else {
        16 * pow16((n - 1) as nat)
    }
}

proof fn lemma_hex_len_bound(v: nat, n: nat)
    requires
        n >= 1,
        v < pow16(n),
    ensures
        hex_len(v) <= n,
    decreases n,
{
    if v >= 16 {
        if n == 1 {
            assert(pow16(1) == 16 * pow16(0));
        }
        lemma_hex_len_bound(v / 16, (n - 1) as nat);
    }
}

impl ListingEntry {
    /// `<address>: <text>`, the address in lower-case hex of at least eight
    /// digits.
    pub fn describe(&self) -> (r: String)
        ensures
            r@ == group_text(
                self.address as nat,
                16,
                if hex_len(self.address as nat) < 8 {
                    8
                } else {
                    hex_len(self.address as nat)
                },
            ) + seq![':', ' '] + self.text@,
    {
        proof {
            reveal_with_fuel(pow16, 17);
            lemma_hex_len_bound(self.address as nat, 16);
        }
        let mut width: usize = 1;
        let mut v: u64 = self.address;
        while v >= 16
            invariant
                1 <= width,
                width + hex_len(v as nat) == 1 + hex_len(self.address as nat),
                hex_len(self.address as nat) <= 16,
            decreases v,
        {
            v = v / 16;
            width += 1;
        }
        if width < 8 {
            width = 8;
        }
        let mut s = String::new();
        push_group(&mut s, self.address as u128, 16, width);
        push_char(&mut s, ':');
        push_char(&mut s, ' ');
        s.append(self.text.as_str());
        s
    }
}

} // verus!
