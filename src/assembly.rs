use vstd::prelude::*;
use vstd::string::{StrSliceExecFns, StringExecFns};

use crate::listing::{
    digit_bits, grouped_byte_len, grouped_value_to_bytes, shifted, ListingConfig, ListingEntry,
};
use crate::parse::{chars_of, dotted_value, parse_dotted_groups};

verus! {

/// What a parsed entry holds: address, bytes and text.
pub type EntryView = (u64, Seq<u8>, Seq<char>);

pub open spec fn entry_view(e: ListingEntry) -> EntryView {
    (e.address, e.bytes@, e.text@)
}

/// Unicode white space, as `char::is_whitespace` classifies it.
pub open spec fn is_ws(c: char) -> bool {
    ||| c == ' '
    ||| ('\t' <= c && c <= '\r')
    ||| c == '\u{85}'
    ||| c == '\u{a0}'
    ||| c == '\u{1680}'
    ||| ('\u{2000}' <= c && c <= '\u{200a}')
    ||| c == '\u{2028}'
    ||| c == '\u{2029}'
    ||| c == '\u{202f}'
    ||| c == '\u{205f}'
    ||| c == '\u{3000}'
}

/// Index of the first line break in `s`, or its length.
pub open spec fn first_nl(s: Seq<char>) -> nat
    decreases s.len(),
{
    if s.len() == 0 || s[0] == '\n' {
        0
    } else {
        1 + first_nl(s.drop_first())
    }
}

/// Index of the first white space in `s`, or its length.
pub open spec fn first_ws(s: Seq<char>) -> nat
    decreases s.len(),
{
    if s.len() == 0 || is_ws(s[0]) {
        0
    } else {
        1 + first_ws(s.drop_first())
    }
}

pub open spec fn trim_start(s: Seq<char>) -> Seq<char>
    decreases s.len(),
{
    if s.len() > 0 && is_ws(s[0]) {
        trim_start(s.drop_first())
    } else {
        s
    }
}

pub open spec fn trim_end(s: Seq<char>) -> Seq<char>
    decreases s.len(),
{
    if s.len() > 0 && is_ws(s.last()) {
        trim_end(s.drop_last())
    } else {
        s
    }
}

/// What `grouped_value_to_bytes` gives: big-endian bytes of `v`.
pub open spec fn grouped_bytes(v: u128, base: u8, w: usize, groups: usize) -> Seq<u8> {
    let n = grouped_byte_len(base, w as nat, groups as nat);
    Seq::new(n, |j: int| (shifted(v as nat, 256, (n - 1 - j) as nat) % 256) as u8)
}

/// A trimmed, non-empty listing line: an address token, an entry token and
/// the rest, split at the first two white-space characters.
pub open spec fn line_entry(t: Seq<char>, cfg: ListingConfig) -> Result<EntryView, &'static str> {
    let a = first_ws(t) as int;
    if a >= t.len() {
        Err("missing entry")
    } else {
        let tok1 = t.subrange(0, a);
        let after = t.subrange(a + 1, t.len() as int);
        let b = first_ws(after) as int;
        let tok2 = after.subrange(0, b);
        let rest = if b < after.len() {
            after.subrange(b + 1, after.len() as int)
        } else {
            seq![]
        };
        match dotted_value(tok1, cfg.base, cfg.addr_groups) {
            Err(e) => Err(e),
            Ok(av) => match dotted_value(tok2, cfg.base, cfg.entry_groups) {
                Err(e) => Err(e),
                Ok(ev) => Ok(
                    (
                        #[verifier::truncate] (av as u64),
                        grouped_bytes(ev, cfg.base, cfg.entry_group_width, cfg.entry_groups),
                        rest,
                    ),
                ),
            },
        }
    }
}

/// The entries of an assembly listing: one per line that is not blank once
/// trimmed, or the first line's error.
pub open spec fn asm_entries(text: Seq<char>, cfg: ListingConfig) -> Result<Seq<EntryView>, &'static str>
    decreases text.len(),
{
    if text.len() == 0 {
        Ok(seq![])
    } else {
        let i = first_nl(text) as int;
        let line = trim_end(trim_start(text.subrange(0, i)));
        let rest = if i < text.len() {
            text.subrange(i + 1, text.len() as int)
        } else {
            seq![]
        };
        if line.len() == 0 {
            asm_entries(rest, cfg)
        } else {
            match line_entry(line, cfg) {
                Err(e) => Err(e),
                Ok(en) => match asm_entries(rest, cfg) {
                    Ok(es) => Ok(seq![en] + es),
                    Err(e) => Err(e),
                },
            }
        }
    }
}

pub open spec fn prepend(out: Seq<EntryView>, r: Result<Seq<EntryView>, &'static str>) -> Result<Seq<EntryView>, &'static str> {
    match r {
        Ok(es) => Ok(out + es),
        Err(e) => Err(e),
    }
}

fn is_ws_char(c: char) -> (r: bool)
    ensures
        r == is_ws(c),
{
    c == ' ' || ('\t' <= c && c <= '\r') || c == '\u{85}' || c == '\u{a0}' || c == '\u{1680}'
        || ('\u{2000}' <= c && c <= '\u{200a}') || c == '\u{2028}' || c == '\u{2029}'
        || c == '\u{202f}' || c == '\u{205f}' || c == '\u{3000}'
}

/// The first white space in `cs[from..hi]`, or `hi`.
pub(crate) fn scan_to_ws(cs: &Vec<char>, from: usize, hi: usize) -> (r: usize)
    requires
        from <= hi <= cs@.len(),
    ensures
        from <= r <= hi,
        r - from == first_ws(cs@.subrange(from as int, hi as int)),
{
    let mut q = from;
    while q < hi && !is_ws_char(cs[q])
        invariant
            from <= q <= hi <= cs@.len(),
            first_ws(cs@.subrange(from as int, hi as int)) == (q - from) + first_ws(cs@.subrange(q as int, hi as int)),
        decreases hi - q,
    {
        assert(cs@.subrange(q as int, hi as int).drop_first() =~= cs@.subrange(q + 1, hi as int));
        q += 1;
    }
    q
}

/// The first line break in `cs[from..]`, or the end.
pub(crate) fn scan_to_nl(cs: &Vec<char>, from: usize) -> (r: usize)
    requires
        from <= cs@.len(),
    ensures
        from <= r <= cs@.len(),
        r - from == first_nl(cs@.subrange(from as int, cs@.len() as int)),
{
    let n = cs.len();
    let mut q = from;
    while q < n && cs[q] != '\n'
        invariant
            from <= q <= n == cs@.len(),
            first_nl(cs@.subrange(from as int, n as int)) == (q - from) + first_nl(cs@.subrange(q as int, n as int)),
        decreases n - q,
    {
        assert(cs@.subrange(q as int, n as int).drop_first() =~= cs@.subrange(q + 1, n as int));
        q += 1;
    }
    q
}

/// The bounds of `cs[lo..hi]` with white space trimmed from both ends.
pub(crate) fn trim_bounds(cs: &Vec<char>, lo: usize, hi: usize) -> (r: (usize, usize))
    requires
        lo <= hi <= cs@.len(),
    ensures
        lo <= r.0 <= r.1 <= hi,
        cs@.subrange(r.0 as int, r.1 as int) == trim_end(trim_start(cs@.subrange(lo as int, hi as int))),
{
    let mut a = lo;
    while a < hi && is_ws_char(cs[a])
        invariant
            lo <= a <= hi <= cs@.len(),
            trim_start(cs@.subrange(lo as int, hi as int)) == trim_start(cs@.subrange(a as int, hi as int)),
        decreases hi - a,
    {
        assert(cs@.subrange(a as int, hi as int).drop_first() =~= cs@.subrange(a + 1, hi as int));
        a += 1;
    }
    let mut b = hi;
    while b > a && is_ws_char(cs[b - 1])
        invariant
            lo <= a <= b <= hi <= cs@.len(),
            trim_end(cs@.subrange(a as int, hi as int)) == trim_end(cs@.subrange(a as int, b as int)),
        decreases b - a,
    {
        assert(cs@.subrange(a as int, b as int).drop_last() =~= cs@.subrange(a as int, b - 1));
        b -= 1;
    }
    (a, b)
}

/// The entry on the trimmed, non-empty line `cs[lo..hi]`, where `cs` holds
/// the characters of `text`.
fn line_at(text: &str, cs: &Vec<char>, lo: usize, hi: usize, cfg: ListingConfig) -> (r: Result<ListingEntry, &'static str>)
    requires
        cs@ == text@,
        lo <= hi <= cs@.len(),
        digit_bits(cfg.base) * cfg.entry_group_width <= usize::MAX,
        digit_bits(cfg.base) * cfg.entry_group_width * cfg.entry_groups + 7 <= usize::MAX,
    ensures
        match r {
            Ok(e) => line_entry(cs@.subrange(lo as int, hi as int), cfg) == Ok::<EntryView, &'static str>(entry_view(e)),
            Err(x) => line_entry(cs@.subrange(lo as int, hi as int), cfg) == Err::<EntryView, &'static str>(x),
        },
{
    let ghost t = cs@.subrange(lo as int, hi as int);
    let a = scan_to_ws(cs, lo, hi);
    if a == hi {
        return Err("missing entry");
    }
    let b = scan_to_ws(cs, a + 1, hi);
    proof {
        let after = t.subrange((a - lo) + 1, t.len() as int);
        assert(t.subrange(0, (a - lo) as int) =~= cs@.subrange(lo as int, a as int));
        assert(after =~= cs@.subrange(a + 1, hi as int));
        assert(after.subrange(0, (b - a - 1) as int) =~= cs@.subrange(a + 1, b as int));
        if b < hi {
            assert(after.subrange((b - a - 1) + 1, after.len() as int) =~= cs@.subrange(b + 1, hi as int));
        } else {
            assert(cs@.subrange(hi as int, hi as int) =~= Seq::<char>::empty());
        }
    }
    let tok1 = text.substring_char(lo, a);
    let tok2 = text.substring_char(a + 1, b);
    let rest = if b < hi {
        text.substring_char(b + 1, hi)
    } else {
        text.substring_char(hi, hi)
    };
    let av = match parse_dotted_groups(tok1, cfg.base, cfg.addr_groups) {
        Ok(v) => v,
        Err(e) => {
            return Err(e);
        },
    };
    let ev = match parse_dotted_groups(tok2, cfg.base, cfg.entry_groups) {
        Ok(v) => v,
        Err(e) => {
            return Err(e);
        },
    };
    let bytes = grouped_value_to_bytes(ev, cfg.base, cfg.entry_group_width, cfg.entry_groups);
    assert(bytes@ =~= grouped_bytes(ev, cfg.base, cfg.entry_group_width, cfg.entry_groups));
    Ok(ListingEntry { address: #[verifier::truncate] (av as u64), bytes, text: String::from_str(rest) })
}

/// Parse an assembly listing: each line that is not blank once trimmed reads
/// `<address> <entry> <text>`, address and entry in dotted groups of the
/// configured base; the entry's value becomes its bytes.
pub fn parse_asm_listing(text: &str, cfg: ListingConfig) -> (r: Result<Vec<ListingEntry>, &'static str>)
    requires
        digit_bits(cfg.base) * cfg.entry_group_width <= usize::MAX,
        digit_bits(cfg.base) * cfg.entry_group_width * cfg.entry_groups + 7 <= usize::MAX,
    ensures
        match r {
            Ok(v) => asm_entries(text@, cfg) == Ok::<Seq<EntryView>, &'static str>(
                v@.map_values(|e: ListingEntry| entry_view(e)),
            ),
            Err(x) => asm_entries(text@, cfg) == Err::<Seq<EntryView>, &'static str>(x),
        },
{
    let cs = chars_of(text);
    let n = cs.len();
    let mut out: Vec<ListingEntry> = Vec::new();
    let mut p: usize = 0;
    proof {
        assert(cs@.subrange(0, n as int) =~= text@);
        assert(out@.map_values(|e: ListingEntry| entry_view(e)) + Seq::<EntryView>::empty() =~= Seq::<EntryView>::empty());
    }
    while p < n
        invariant
            p <= n == cs@.len(),
            cs@ == text@,
            digit_bits(cfg.base) * cfg.entry_group_width <= usize::MAX,
            digit_bits(cfg.base) * cfg.entry_group_width * cfg.entry_groups + 7 <= usize::MAX,
            asm_entries(text@, cfg) == prepend(
                out@.map_values(|e: ListingEntry| entry_view(e)),
                asm_entries(cs@.subrange(p as int, n as int), cfg),
            ),
        decreases n - p,
    {
        let ghost done = out@.map_values(|e: ListingEntry| entry_view(e));
        let ghost s = cs@.subrange(p as int, n as int);
        let q = scan_to_nl(&cs, p);
        let (lo, hi) = trim_bounds(&cs, p, q);
        assert(s.subrange(0, (q - p) as int) =~= cs@.subrange(p as int, q as int));
        let ghost rest = if q < n {
            cs@.subrange(q + 1, n as int)
        } else {
            cs@.subrange(n as int, n as int)
        };
        proof {
            if q < n {
                assert(s.subrange((q - p) + 1, s.len() as int) =~= rest);
            } else {
                assert(rest =~= Seq::<char>::empty());
            }
        }
        if lo < hi {
            match line_at(text, &cs, lo, hi, cfg) {
                Err(e) => {
                    return Err(e);
                },
                Ok(en) => {
                    out.push(en);
                    proof {
                        let now = out@.map_values(|e: ListingEntry| entry_view(e));
                        assert(now =~= done.push(entry_view(en)));
                        match asm_entries(rest, cfg) {
                            Ok(es) => {
                                assert(done + (seq![entry_view(en)] + es) =~= now + es);
                            },
                            Err(_) => {},
                        }
                    }
                },
            }
        }
        p = if q < n {
            q + 1
        } else {
            q
        };
    }
    proof {
        assert(cs@.subrange(n as int, n as int) =~= Seq::<char>::empty());
        assert(out@.map_values(|e: ListingEntry| entry_view(e)) + Seq::<EntryView>::empty() =~= out@.map_values(
            |e: ListingEntry| entry_view(e),
        ));
    }
    Ok(out)
}

} // verus!
