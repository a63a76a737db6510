use vstd::prelude::*;

use crate::listing::digit_bits;

verus! {

/// The value of `c` as a digit: `0`-`9`, then letters of either case from
/// ten; 36 for anything else.
pub open spec fn digit_val(c: char) -> nat {
    if '0' <= c && c <= '9' {
        (c as u32 - '0' as u32) as nat
    } else if 'a' <= c && c <= 'z' {
        (c as u32 - 'a' as u32 + 10) as nat
    } else if 'A' <= c && c <= 'Z' {
        (c as u32 - 'A' as u32 + 10) as nat
    } else {
        36
    }
}

/// The number that the digits `ds` spell in base `b`.
pub open spec fn digits_value(ds: Seq<char>, b: nat) -> nat
    decreases ds.len(),
{
    if ds.len() == 0 {
        0
    } else {
        digits_value(ds.drop_last(), b) * b + digit_val(ds.last())
    }
}

pub open spec fn fits_u128(v: nat) -> bool {
    v <= u128::MAX
}

/// `p` without one leading `+`.
pub open spec fn signless(p: Seq<char>) -> Seq<char> {
    if p.len() > 0 && p[0] == '+' {
        p.drop_first()
    } else {
        p
    }
}

pub open spec fn all_below(ds: Seq<char>, b: nat) -> bool {
    forall|i: int| 0 <= i < ds.len() ==> digit_val(#[trigger] ds[i]) < b
}

/// An unsigned number in base `b`: an optional `+`, then at least one digit
/// below `b`, with a value that fits in 128 bits.
pub open spec fn part_value(p: Seq<char>, b: nat) -> Option<u128> {
    let ds = signless(p);
    if ds.len() == 0 || !all_below(ds, b) || !fits_u128(digits_value(ds, b)) {
        None
    } else {
        Some(digits_value(ds, b) as u128)
    }
}

/// The pieces of `s` between dots; there is one more piece than there are dots.
pub open spec fn split_dots(s: Seq<char>) -> Seq<Seq<char>>
    decreases s.len(),
{
    if s.len() == 0 {
        seq![seq![]]
    } else {
        let r = split_dots(s.drop_last());
        if s.last() == '.' {
            r.push(seq![])
        } else {
            r.drop_last().push(r.last().push(s.last()))
        }
    }
}

/// Each group shifted in after the ones before it, by as many bits as its
/// digits stand for; `None` if a group is no number or too wide to shift in.
pub open spec fn fold_groups(parts: Seq<Seq<char>>, base: u8) -> Option<u128>
    decreases parts.len(),
{
    if parts.len() == 0 {
        Some(0)
    } else {
        match fold_groups(parts.drop_last(), base) {
            None => None,
            Some(v) => {
                let bits = digit_bits(base) * parts.last().len();
                match part_value(parts.last(), base as nat) {
                    None => None,
                    Some(p) => if bits >= 128 {
                        None
                    } else {
                        Some((v << (bits as u128)) | p)
                    },
                }
            },
        }
    }
}

pub open spec fn grouped_number(s: Seq<char>, base: u8, expected: Option<usize>) -> Result<u128, &'static str> {
    let parts = split_dots(s);
    if expected is Some && parts.len() != expected->0 {
        Err("group count mismatch")
    } else {
        match fold_groups(parts, base) {
            Some(v) => Ok(v),
            None => Err("invalid group digits"),
        }
    }
}

pub proof fn lemma_split_dots_nonempty(s: Seq<char>)
    ensures
        split_dots(s).len() >= 1,
    decreases s.len(),
{
    if s.len() > 0 {
        lemma_split_dots_nonempty(s.drop_last());
    }
}

/// Relies on str::chars: the characters of `s`, in order.
#[verifier::external_body]
pub(crate) fn chars_of(s: &str) -> (r: Vec<char>)
    ensures
        r@ == s@,
{
    s.chars().collect()
}

fn char_digit(c: char) -> (r: u32)
    ensures
        r as nat == digit_val(c),
{
    if '0' <= c && c <= '9' {
        c as u32 - '0' as u32
    } else if 'a' <= c && c <= 'z' {
        c as u32 - 'a' as u32 + 10
    } else if 'A' <= c && c <= 'Z' {
        c as u32 - 'A' as u32 + 10
    } else {
        36
    }
}

/// The number that `cs[lo..hi]` spells in base `b`.
fn parse_part(cs: &Vec<char>, lo: usize, hi: usize, b: u32) -> (r: Option<u128>)
    requires
        lo <= hi <= cs@.len(),
        2 <= b <= 36,
    ensures
        r == part_value(cs@.subrange(lo as int, hi as int), b as nat),
{
    let ghost p = cs@.subrange(lo as int, hi as int);
    let mut i: usize = lo;
    if i < hi && cs[i] == '+' {
        i += 1;
    }
    let ghost ds = cs@.subrange(i as int, hi as int);
    assert(ds =~= signless(p));
    if i == hi {
        return None;
    }
    let mut acc: u128 = 0;
    let mut over = false;
    let mut j: usize = i;
    while j < hi
        invariant
            lo <= i <= j <= hi <= cs@.len(),
            2 <= b <= 36,
            ds == cs@.subrange(i as int, hi as int),
            p == cs@.subrange(lo as int, hi as int),
            ds == signless(p),
            forall|k: int| i <= k < j ==> digit_val(#[trigger] cs@[k]) < b,
            !over ==> acc as nat == digits_value(cs@.subrange(i as int, j as int), b as nat),
            over ==> !fits_u128(digits_value(cs@.subrange(i as int, j as int), b as nat)),
        decreases hi - j,
    {
        let d = char_digit(cs[j]);
        if d >= b {
            assert(ds[j - i] == cs@[j as int]);
            assert(digit_val(ds[j - i]) >= b);
            assert(!all_below(ds, b as nat));
            return None;
        }
        let ghost prev = cs@.subrange(i as int, j as int);
        let ghost next = cs@.subrange(i as int, j + 1);
        assert(next.drop_last() =~= prev);
        if !over {
            match acc.checked_mul(b as u128) {
                Some(m) => match m.checked_add(d as u128) {
                    Some(a) => {
                        acc = a;
                    },
                    None => {
                        over = true;
                    },
                },
                None => {
                    over = true;
                    assert(digits_value(prev, b as nat) * b <= digits_value(next, b as nat));
                },
            }
        } else {
            assert(digits_value(prev, b as nat) <= digits_value(prev, b as nat) * b) by (nonlinear_arith)
                requires
                    b >= 2,
            ;
        }
        j += 1;
    }
    assert(cs@.subrange(i as int, hi as int) =~= ds);
    assert forall|k: int| 0 <= k < ds.len() implies digit_val(#[trigger] ds[k]) < b by {
        assert(ds[k] == cs@[i + k]);
    }
    assert(all_below(ds, b as nat));
    if over {
        None
    } else {
        Some(acc)
    }
}

/// `acc` with the group `cs[start..end]` shifted in.
fn shift_in(acc: Option<u128>, cs: &Vec<char>, start: usize, end: usize, base: u8) -> (r: Option<u128>)
    requires
        start <= end <= cs@.len(),
        2 <= base <= 36,
    ensures
        r == (match acc {
            None => None,
            Some(v) => {
                let seg = cs@.subrange(start as int, end as int);
                let bits = digit_bits(base) * seg.len();
                match part_value(seg, base as nat) {
                    None => None,
                    Some(p) => if bits >= 128 {
                        None
                    } else {
                        Some((v << (bits as u128)) | p)
                    },
                }
            },
        }),
{
    let bits_per_digit: u128 = if base == 16 {
        4
    } else if base == 8 {
        3
    } else {
        4
    };
    match acc {
        None => None,
        Some(v) => match parse_part(cs, start, end, base as u32) {
            None => None,
            Some(p) => {
                let len = (end - start) as u128;
                if len >= 128 || bits_per_digit * len >= 128 {
                    None
                } else {
                    Some((v << (bits_per_digit * len)) | p)
                }
            },
        },
    }
}

/// A dotted group number: the groups of `s` between dots, each an unsigned
/// number in `base`, shifted together by as many bits as each group's digits
/// stand for. Fails if `expected` is given and the group count differs, or
/// if a group is no number or too wide to shift into 128 bits.
pub fn parse_grouped_number(s: &str, base: u8, expected_groups: Option<usize>) -> (r: Result<u128, &'static str>)
    requires
        2 <= base <= 36,
    ensures
        r == grouped_number(s@, base, expected_groups),
{
    let cs = chars_of(s);
    let n = cs.len();
    let mut dots: usize = 0;
    let mut i: usize = 0;
    while i < n
        invariant
            i <= n == cs@.len(),
            dots <= i,
            split_dots(cs@.subrange(0, i as int)).len() == dots + 1,
        decreases n - i,
    {
        let ghost prev = cs@.subrange(0, i as int);
        assert(cs@.subrange(0, i + 1).drop_last() =~= prev);
        proof {
            lemma_split_dots_nonempty(prev);
        }
        if cs[i] == '.' {
            dots += 1;
        }
        i += 1;
    }
    assert(cs@.subrange(0, n as int) =~= s@);
    if let Some(expected) = expected_groups {
        if expected == 0 || dots != expected - 1 {
            return Err("group count mismatch");
        }
    }
    let bits_per_digit: u128 = if base == 16 {
        4
    } else if base == 8 {
        3
    } else {
        4
    };
    let mut acc: Option<u128> = Some(0);
    let mut start: usize = 0;
    let mut i: usize = 0;
    proof {
        assert(cs@.subrange(0, 0) =~= Seq::<char>::empty());
        assert(split_dots(Seq::<char>::empty()).drop_last() =~= Seq::<Seq<char>>::empty());
    }
    while i < n
        invariant
            start <= i <= n,
            n == cs@.len(),
            2 <= base <= 36,
            split_dots(cs@.subrange(0, i as int)).last() == cs@.subrange(start as int, i as int),
            acc == fold_groups(split_dots(cs@.subrange(0, i as int)).drop_last(), base),
        decreases n - i,
    {
        let ghost pre = cs@.subrange(0, i as int);
        let ghost parts = split_dots(pre);
        proof {
            lemma_split_dots_nonempty(pre);
        }
        assert(cs@.subrange(0, i + 1).drop_last() =~= pre);
        if cs[i] == '.' {
            acc = shift_in(acc, &cs, start, i, base);
            proof {
                assert(parts.drop_last().push(parts.last()) =~= parts);
                assert(split_dots(cs@.subrange(0, i + 1)).drop_last() =~= parts);
                assert(split_dots(cs@.subrange(0, i + 1)).last() =~= cs@.subrange(i + 1, i + 1));
            }
            start = i + 1;
        } else {
            assert(split_dots(cs@.subrange(0, i + 1)).drop_last() =~= parts.drop_last());
            assert(cs@.subrange(start as int, i + 1) =~= cs@.subrange(start as int, i as int).push(cs@[i as int]));
        }
        i += 1;
    }
    proof {
        let parts = split_dots(cs@);
        lemma_split_dots_nonempty(cs@);
        assert(parts.drop_last().push(parts.last()) =~= parts);
    }
    acc = shift_in(acc, &cs, start, n, base);
    match acc {
        Some(v) => Ok(v),
        None => Err("invalid group digits"),
    }
}

/// One group of a dotted token: at least one digit below `base`.
pub open spec fn group_ok(g: Seq<char>, base: u8) -> bool {
    g.len() > 0 && all_below(g, base as nat)
}

/// `t` is groups of digits below `base`, separated by single dots.
pub open spec fn dotted_ok(t: Seq<char>, base: u8) -> bool {
    forall|k: int| 0 <= k < split_dots(t).len() ==> group_ok(#[trigger] split_dots(t)[k], base)
}

/// A dotted token in the configured base with `expected` groups.
pub open spec fn dotted_value(t: Seq<char>, base: u8, expected: usize) -> Result<u128, &'static str> {
    if base != 16 && base != 8 {
        Err("unsupported base")
    } else if !dotted_ok(t, base) {
        if base == 16 {
            Err("invalid hex groups")
        } else {
            Err("invalid octal groups")
        }
    } else {
        grouped_number(t, base, Some(expected))
    }
}

pub(crate) fn dotted_groups_ok(cs: &Vec<char>, base: u8) -> (r: bool)
    requires
        2 <= base <= 36,
    ensures
        r == dotted_ok(cs@, base),
{
    let n = cs.len();
    let mut ok = true;
    let mut start: usize = 0;
    let mut i: usize = 0;
    proof {
        assert(cs@.subrange(0, 0) =~= Seq::<char>::empty());
    }
    while i < n
        invariant
            start <= i <= n == cs@.len(),
            2 <= base <= 36,
            split_dots(cs@.subrange(0, i as int)).last() == cs@.subrange(start as int, i as int),
            split_dots(cs@.subrange(0, i as int)).len() >= 1,
            ok == ((forall|k: int|
                0 <= k < split_dots(cs@.subrange(0, i as int)).len() - 1 ==> group_ok(
                    #[trigger] split_dots(cs@.subrange(0, i as int))[k],
                    base,
                )) && all_below(cs@.subrange(start as int, i as int), base as nat)),
        decreases n - i,
    {
        let ghost pre = cs@.subrange(0, i as int);
        let ghost parts = split_dots(pre);
        let ghost cur = cs@.subrange(start as int, i as int);
        let ghost ok0 = ok;
        assert(cs@.subrange(0, i + 1).drop_last() =~= pre);
        let ghost nparts = split_dots(cs@.subrange(0, i + 1));
        if cs[i] == '.' {
            if i == start {
                ok = false;
            }
            start = i + 1;
            proof {
                assert(nparts == parts.push(seq![]));
                assert(cs@.subrange(start as int, i + 1) =~= Seq::<char>::empty());
                if ok {
                    assert forall|k: int| 0 <= k < nparts.len() - 1 implies group_ok(#[trigger] nparts[k], base) by {
                        assert(nparts[k] == parts[k]);
                    }
                }
                if ok0 && cur.len() > 0 {
                    assert(ok);
                }
                if !ok0 {
                    if !all_below(cur, base as nat) {
                        assert(!group_ok(nparts[parts.len() - 1], base));
                    } else {
                        let k = choose|k: int| 0 <= k < parts.len() - 1 && !group_ok(#[trigger] parts[k], base);
                        assert(nparts[k] == parts[k]);
                    }
                }
                if cur.len() == 0 {
                    assert(!group_ok(nparts[parts.len() - 1], base));
                }
            }
        } else {
            let d = char_digit(cs[i]);
            if d >= base as u32 {
                ok = false;
            }
            proof {
                let ncur = cs@.subrange(start as int, i + 1);
                assert(ncur =~= cur.push(cs@[i as int]));
                assert(nparts == parts.drop_last().push(ncur));
                assert forall|k: int| 0 <= k < nparts.len() - 1 implies #[trigger] nparts[k] == parts[k] by {}
                if d >= base as u32 {
                    assert(ncur[ncur.len() - 1] == cs@[i as int]);
                    assert(!all_below(ncur, base as nat));
                } else if all_below(cur, base as nat) {
                    assert forall|k: int| 0 <= k < ncur.len() implies digit_val(#[trigger] ncur[k]) < base by {
                        if k < cur.len() {
                            assert(ncur[k] == cur[k]);
                        }
                    }
                } else {
                    let k = choose|k: int| 0 <= k < cur.len() && !(digit_val(#[trigger] cur[k]) < base);
                    assert(ncur[k] == cur[k]);
                }
                if !ok0 && all_below(cur, base as nat) {
                    let k = choose|k: int| 0 <= k < parts.len() - 1 && !group_ok(#[trigger] parts[k], base);
                    assert(nparts[k] == parts[k]);
                }
            }
        }
        i += 1;
    }
    proof {
        assert(cs@.subrange(0, n as int) =~= cs@);
        let parts = split_dots(cs@);
        if ok && start < n {
            assert forall|k: int| 0 <= k < parts.len() implies group_ok(#[trigger] parts[k], base) by {}
        }
        if start == n {
            assert(!group_ok(parts[parts.len() - 1], base));
        }
        if !ok {
            if !all_below(cs@.subrange(start as int, n as int), base as nat) {
                assert(!group_ok(parts[parts.len() - 1], base));
            } else {
                let k = choose|k: int| 0 <= k < parts.len() - 1 && !group_ok(#[trigger] parts[k], base);
            }
        }
    }
    ok && start < n
}

/// A dotted token in `base` (16 or 8) with `expected` groups.
pub(crate) fn parse_dotted_groups(token: &str, base: u8, expected: usize) -> (r: Result<u128, &'static str>)
    ensures
        r == dotted_value(token@, base, expected),
{
    if base == 16 {
        let cs = chars_of(token);
        if !dotted_groups_ok(&cs, base) {
            return Err("invalid hex groups");
        }
        parse_grouped_number(token, base, Some(expected))
    } else if base == 8 {
        let cs = chars_of(token);
        if !dotted_groups_ok(&cs, base) {
            return Err("invalid octal groups");
        }
        parse_grouped_number(token, base, Some(expected))
    } else {
        Err("unsupported base")
    }
}

} // verus!
