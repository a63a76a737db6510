use vstd::prelude::*;
use vstd::string::{StrSliceExecFns, StringExecFns};

use crate::assembly::{
    entry_view, first_nl, first_ws, prepend, scan_to_nl, scan_to_ws, trim_bounds, trim_end,
    trim_start, EntryView,
};
use crate::listing::{digit_bits, grouped_byte_len, ListingConfig, ListingEntry};
use crate::parse::{
    chars_of, dotted_groups_ok, dotted_ok, grouped_number, lemma_split_dots_nonempty,
    parse_grouped_number, split_dots,
};

verus! {

pub open spec fn sat_add(a: usize, b: nat) -> usize {
    if a + b > usize::MAX {
        usize::MAX
    } else {
        (a + b) as usize
    }
}

/// Up to `total` bytes of `raw` from `off`; nothing if `off` is past its end.
pub open spec fn window(raw: Seq<u8>, off: usize, total: nat) -> Seq<u8> {
    if off < raw.len() {
        let end = if off + total < raw.len() {
            off + total
        } else {
            raw.len() as int
        };
        raw.subrange(off as int, end)
    } else {
        seq![]
    }
}

pub open spec fn entry_bytes(cfg: ListingConfig) -> nat {
    grouped_byte_len(cfg.base, cfg.entry_group_width as nat, cfg.entry_groups as nat)
}

/// The address a dotted token names: `None` when it is not a hex token in
/// base 16 (the line is then a comment), or the parse error.
pub open spec fn detached_address(first: Seq<char>, cfg: ListingConfig) -> Result<Option<u128>, &'static str> {
    if cfg.base == 16 {
        if !dotted_ok(first, 16) {
            Ok(None)
        } else if split_dots(first).len() != cfg.addr_groups {
            Err("address group count mismatch")
        } else {
            match grouped_number(first, 16, Some(cfg.addr_groups)) {
                Ok(v) => Ok(Some(v)),
                Err(e) => Err(e),
            }
        }
    } else {
        match grouped_number(first, cfg.base, Some(cfg.addr_groups)) {
            Ok(v) => Ok(Some(v)),
            Err(e) => Err(e),
        }
    }
}

/// A trimmed, non-empty line of a detached listing, read at `cursor`: an
/// address token of underscores and dots takes the cursor as its address; a
/// dotted address token takes its value; anything else is a comment.
pub open spec fn detached_line(t: Seq<char>, raw: Seq<u8>, cfg: ListingConfig, cursor: usize) -> Result<(EntryView, usize), &'static str> {
    let a = first_ws(t) as int;
    let first = t.subrange(0, a);
    let rest = if a < t.len() {
        t.subrange(a + 1, t.len() as int)
    } else {
        seq![]
    };
    let comment = Ok(((0u64, Seq::<u8>::empty(), t), cursor));
    if !(exists|i: int| 0 <= i < first.len() && first[i] == '.') {
        comment
    } else if forall|i: int| 0 <= i < first.len() ==> (first[i] == '_' || first[i] == '.') {
        Ok(placed_with(raw, entry_bytes(cfg), cursor as u64, cursor, rest))
    } else {
        match detached_address(first, cfg) {
            Err(e) => Err(e),
            Ok(None) => comment,
            Ok(Some(v)) => Ok(
                placed_with(
                    raw,
                    entry_bytes(cfg),
                    #[verifier::truncate] (v as u64),
                    #[verifier::truncate] (v as usize),
                    rest,
                ),
            ),
        }
    }
}

/// The entries of a detached listing from `cursor` on: one per line that is
/// not blank once trimmed, or the first line's error.
pub open spec fn detached_entries(text: Seq<char>, raw: Seq<u8>, cfg: ListingConfig, cursor: usize) -> Result<Seq<EntryView>, &'static str>
    decreases text.len(),
{
    if text.len() == 0 {
        Ok(seq![])
    } else {
        let i = first_nl(text) as int;
        let line = trim_end(trim_start(text.subrange(0, i)));
        let rest = if i < text.len() {
            text.subrange(i + 1, text.len() as int)
        } else {
            seq![]
        };
        if line.len() == 0 {
            detached_entries(rest, raw, cfg, cursor)
        } else {
            match detached_line(line, raw, cfg, cursor) {
                Err(e) => Err(e),
                Ok((en, c)) => match detached_entries(rest, raw, cfg, c) {
                    Ok(es) => Ok(seq![en] + es),
                    Err(e) => Err(e),
                },
            }
        }
    }
}

/// The entry placed at `off`, with the text, and the cursor after its bytes.
pub open spec fn placed_with(raw: Seq<u8>, total: nat, address: u64, off: usize, text: Seq<char>) -> (EntryView, usize) {
    let bytes = window(raw, off, total);
    ((address, bytes, text), sat_add(off, bytes.len()))
}

fn window_of(raw: &[u8], off: usize, total: usize) -> (r: Vec<u8>)
    ensures
        r@ == window(raw@, off, total as nat),
{
    let mut out: Vec<u8> = Vec::new();
    if off >= raw.len() {
        return out;
    }
    let avail = raw.len() - off;
    let end = if total < avail {
        off + total
    } else {
        raw.len()
    };
    let mut i = off;
    while i < end
        invariant
            off <= i <= end <= raw@.len(),
            out@ == raw@.subrange(off as int, i as int),
        decreases end - i,
    {
        out.push(raw[i]);
        i += 1;
        assert(out@ =~= raw@.subrange(off as int, i as int));
    }
    out
}

/// The number of dots in `cs`: one less than its groups.
fn dot_count(cs: &Vec<char>) -> (r: usize)
    ensures
        r + 1 == split_dots(cs@).len(),
{
    let n = cs.len();
    let mut dots: usize = 0;
    let mut i: usize = 0;
    assert(cs@.subrange(0, 0) =~= Seq::<char>::empty());
    while i < n
        invariant
            i <= n == cs@.len(),
            dots <= i,
            split_dots(cs@.subrange(0, i as int)).len() == dots + 1,
        decreases n - i,
    {
        let ghost prev = cs@.subrange(0, i as int);
        assert(cs@.subrange(0, i + 1).drop_last() =~= prev);
        proof {
            lemma_split_dots_nonempty(prev);
        }
        if cs[i] == '.' {
            dots += 1;
        }
        i += 1;
    }
    assert(cs@.subrange(0, n as int) =~= cs@);
    dots
}

fn place_at(raw: &[u8], total: usize, address: u64, off: usize, text: &str) -> (r: (ListingEntry, usize))
    ensures
        (entry_view(r.0), r.1) == placed_with(raw@, total as nat, address, off, text@),
{
    let bytes = window_of(raw, off, total);
    let len = bytes.len();
    let next = if off > usize::MAX - len {
        usize::MAX
    } else {
        off + len
    };
    (ListingEntry { address, bytes, text: String::from_str(text) }, next)
}


/// The entry on the trimmed, non-empty line `cs[lo..hi]` read at `cursor`,
/// where `cs` holds the characters of `text`.
fn detached_line_at(
    text: &str,
    cs: &Vec<char>,
    lo: usize,
    hi: usize,
    raw: &[u8],
    cfg: ListingConfig,
    total: usize,
    cursor: usize,
) -> (r: Result<(ListingEntry, usize), &'static str>)
    requires
        cs@ == text@,
        lo <= hi <= cs@.len(),
        2 <= cfg.base <= 36,
        total == entry_bytes(cfg),
    ensures
        match r {
            Ok((e, c)) => detached_line(cs@.subrange(lo as int, hi as int), raw@, cfg, cursor) == Ok::<
                (EntryView, usize),
                &'static str,
            >((entry_view(e), c)),
            Err(x) => detached_line(cs@.subrange(lo as int, hi as int), raw@, cfg, cursor) == Err::<
                (EntryView, usize),
                &'static str,
            >(x),
        },
{
    let ghost t = cs@.subrange(lo as int, hi as int);
    let a = scan_to_ws(cs, lo, hi);
    let ghost first = t.subrange(0, (a - lo) as int);
    assert(first =~= cs@.subrange(lo as int, a as int));
    let rest = if a < hi {
        assert(t.subrange((a - lo) + 1, t.len() as int) =~= cs@.subrange(a + 1, hi as int));
        text.substring_char(a + 1, hi)
    } else {
        assert(cs@.subrange(hi as int, hi as int) =~= Seq::<char>::empty());
        text.substring_char(hi, hi)
    };
    let mut has_dot = false;
    let mut only_marks = true;
    let mut i = lo;
    while i < a
        invariant
            lo <= i <= a <= hi <= cs@.len(),
            first == cs@.subrange(lo as int, a as int),
            has_dot == (exists|k: int| 0 <= k < i - lo && first[k] == '.'),
            only_marks == (forall|k: int| 0 <= k < i - lo ==> (first[k] == '_' || first[k] == '.')),
        decreases a - i,
    {
        let c = cs[i];
        assert(first[i - lo] == c);
        if c == '.' {
            has_dot = true;
        } else if c != '_' {
            only_marks = false;
        }
        i += 1;
    }
    let ghost comment_view = (0u64, Seq::<u8>::empty(), t);
    if !has_dot {
        let line = text.substring_char(lo, hi);
        assert(line@ == t);
        return Ok((ListingEntry { address: 0, bytes: Vec::new(), text: String::from_str(line) }, cursor));
    }
    if only_marks {
        return Ok(place_at(raw, total, cursor as u64, cursor, rest));
    }
    let tok = text.substring_char(lo, a);
    let addr: Option<u128> = if cfg.base == 16 {
        let tcs = chars_of(tok);
        if !dotted_groups_ok(&tcs, 16) {
            None
        } else {
            let dots = dot_count(&tcs);
            if cfg.addr_groups == 0 || dots != cfg.addr_groups - 1 {
                return Err("address group count mismatch");
            }
            match parse_grouped_number(tok, 16, Some(cfg.addr_groups)) {
                Ok(v) => Some(v),
                Err(e) => {
                    return Err(e);
                },
            }
        }
    } else {
        match parse_grouped_number(tok, cfg.base, Some(cfg.addr_groups)) {
            Ok(v) => Some(v),
            Err(e) => {
                return Err(e);
            },
        }
    };
    match addr {
        Some(v) => Ok(
            place_at(raw, total, #[verifier::truncate] (v as u64), #[verifier::truncate] (v as usize), rest),
        ),
        None => {
            let line = text.substring_char(lo, hi);
            Ok((ListingEntry { address: 0, bytes: Vec::new(), text: String::from_str(line) }, cursor))
        },
    }
}

/// Parse a detached listing: comment text whose lines may start with an
/// address token, matched against the separately given `raw` bytes.
pub fn parse_detached_listing(comments: &str, raw: &[u8], cfg: ListingConfig) -> (r: Result<Vec<ListingEntry>, &'static str>)
    requires
        2 <= cfg.base <= 36,
        digit_bits(cfg.base) * cfg.entry_group_width <= usize::MAX,
        digit_bits(cfg.base) * cfg.entry_group_width * cfg.entry_groups + 7 <= usize::MAX,
    ensures
        match r {
            Ok(v) => detached_entries(comments@, raw@, cfg, 0) == Ok::<Seq<EntryView>, &'static str>(
                v@.map_values(|e: ListingEntry| entry_view(e)),
            ),
            Err(x) => detached_entries(comments@, raw@, cfg, 0) == Err::<Seq<EntryView>, &'static str>(x),
        },
{
    let bits_per_digit: usize = if cfg.base == 16 {
        4
    } else if cfg.base == 8 {
        3
    } else {
        4
    };
    let group_bits: usize = bits_per_digit * cfg.entry_group_width;
    assert(group_bits * cfg.entry_groups + 7 <= usize::MAX);
    let total: usize = (group_bits * cfg.entry_groups + 7) / 8;
    let cs = chars_of(comments);
    let n = cs.len();
    let mut out: Vec<ListingEntry> = Vec::new();
    let mut cursor: usize = 0;
    let mut p: usize = 0;
    proof {
        assert(cs@.subrange(0, n as int) =~= comments@);
        assert(out@.map_values(|e: ListingEntry| entry_view(e)) + Seq::<EntryView>::empty() =~= Seq::<EntryView>::empty());
    }
    while p < n
        invariant
            p <= n == cs@.len(),
            cs@ == comments@,
            2 <= cfg.base <= 36,
            total == entry_bytes(cfg),
            detached_entries(comments@, raw@, cfg, 0) == prepend(
                out@.map_values(|e: ListingEntry| entry_view(e)),
                detached_entries(cs@.subrange(p as int, n as int), raw@, cfg, cursor),
            ),
        decreases n - p,
    {
        let ghost done = out@.map_values(|e: ListingEntry| entry_view(e));
        let ghost s = cs@.subrange(p as int, n as int);
        let q = scan_to_nl(&cs, p);
        let (lo, hi) = trim_bounds(&cs, p, q);
        assert(s.subrange(0, (q - p) as int) =~= cs@.subrange(p as int, q as int));
        let ghost rest = if q < n {
            cs@.subrange(q + 1, n as int)
        } else {
            cs@.subrange(n as int, n as int)
        };
        proof {
            if q < n {
                assert(s.subrange((q - p) + 1, s.len() as int) =~= rest);
            } else {
                assert(rest =~= Seq::<char>::empty());
            }
        }
        if lo < hi {
            match detached_line_at(comments, &cs, lo, hi, raw, cfg, total, cursor) {
                Err(e) => {
                    return Err(e);
                },
                Ok((en, c)) => {
                    out.push(en);
                    cursor = c;
                    proof {
                        let now = out@.map_values(|e: ListingEntry| entry_view(e));
                        assert(now =~= done.push(entry_view(en)));
                        match detached_entries(rest, raw@, cfg, c) {
                            Ok(es) => {
                                assert(done + (seq![entry_view(en)] + es) =~= now + es);
                            },
                            Err(_) => {},
                        }
                    }
                },
            }
        }
        p = if q < n {
            q + 1
        } else {
            q
        };
    }
    proof {
        assert(cs@.subrange(n as int, n as int) =~= Seq::<char>::empty());
        assert(out@.map_values(|e: ListingEntry| entry_view(e)) + Seq::<EntryView>::empty() =~= out@.map_values(
            |e: ListingEntry| entry_view(e),
        ));
    }
    Ok(out)
}

} // verus!
