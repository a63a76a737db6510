use vstd::prelude::*;

verus! {

/// How a metadata text starts: with no architecture header, with one that
/// has no line break after it, or with `arch <line>\n<key>`, the line break
/// at `newline`.
#[derive(Clone, Copy, PartialEq, Eq, Debug, Structural)]
pub enum ArchHeader {
    Absent,
    Incomplete,
    Present { newline: usize },
}

pub open spec fn arch_prefix() -> Seq<u8> {
    seq![97u8, 114u8, 99u8, 104u8, 32u8]
}

pub open spec fn has_arch_prefix(meta: Seq<u8>) -> bool {
    meta.len() >= 5 && meta.subrange(0, 5) == arch_prefix()
}

/// Read the architecture header of `meta` (its UTF-8 bytes): the prefix
/// `arch `, then the first line break after it.
pub fn arch_header(meta: &[u8]) -> (r: ArchHeader)
    ensures
        r == ArchHeader::Absent <==> !has_arch_prefix(meta@),
        r == ArchHeader::Incomplete <==> has_arch_prefix(meta@) && forall|i: int|
            5 <= i < meta@.len() ==> meta@[i] != 10u8,
        r matches ArchHeader::Present { newline } ==> {
            &&& has_arch_prefix(meta@)
            &&& 5 <= newline < meta@.len()
            &&& meta@[newline as int] == 10u8
            &&& forall|i: int| 5 <= i < newline ==> meta@[i] != 10u8
        },
{
    if meta.len() < 5 || meta[0] != 97u8 || meta[1] != 114u8 || meta[2] != 99u8 || meta[3] != 104u8
        || meta[4] != 32u8 {
        proof {
            if meta@.len() >= 5 && meta@.subrange(0, 5) == arch_prefix() {
                assert(meta@.subrange(0, 5)[0] == meta@[0]);
                assert(meta@.subrange(0, 5)[1] == meta@[1]);
                assert(meta@.subrange(0, 5)[2] == meta@[2]);
                assert(meta@.subrange(0, 5)[3] == meta@[3]);
                assert(meta@.subrange(0, 5)[4] == meta@[4]);
            }
        }
        return ArchHeader::Absent;
    }
    assert(meta@.subrange(0, 5) =~= arch_prefix());
    let mut i: usize = 5;
    while i < meta.len()
        invariant
            5 <= i <= meta@.len(),
            has_arch_prefix(meta@),
            forall|k: int| 5 <= k < i ==> meta@[k] != 10u8,
        decreases meta@.len() - i,
    {
        if meta[i] == 10u8 {
            return ArchHeader::Present { newline: i };
        }
        i += 1;
    }
    ArchHeader::Incomplete
}

} // verus!
