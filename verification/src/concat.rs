//! Byte sections made of consecutive parts, and where each part lies.

use vstd::prelude::*;

verus! {

/// The parts one after another.
pub open spec fn concat(parts: Seq<Seq<u8>>) -> Seq<u8>
    decreases parts.len(),
{
    if parts.len() == 0 {
        Seq::empty()
    } else {
        concat(parts.drop_last()) + parts.last()
    }
}

/// Where part `i` starts: the length of the parts before it.
pub open spec fn part_start(parts: Seq<Seq<u8>>, i: int) -> nat {
    concat(parts.subrange(0, i)).len()
}

/// Adding one more part appends it.
pub proof fn lemma_concat_push(parts: Seq<Seq<u8>>, count: int)
    requires
        0 <= count < parts.len(),
    ensures
        concat(parts.subrange(0, count + 1)) == concat(parts.subrange(0, count)) + parts[count],
        part_start(parts, count + 1) == part_start(parts, count) + parts[count].len(),
{
    let longer = parts.subrange(0, count + 1);
    assert(longer.drop_last() =~= parts.subrange(0, count));
}

/// The concatenation of a prefix of the parts is a prefix of the whole.
pub proof fn lemma_concat_prefix(parts: Seq<Seq<u8>>, count: int)
    requires
        0 <= count <= parts.len(),
    ensures
        part_start(parts, count) <= concat(parts).len(),
        concat(parts).subrange(0, part_start(parts, count) as int) == concat(parts.subrange(0, count)),
    decreases parts.len() - count,
{
    if count == parts.len() {
        assert(parts.subrange(0, count) =~= parts);
        assert(concat(parts).subrange(0, concat(parts).len() as int) =~= concat(parts));
    } else {
        lemma_concat_prefix(parts, count + 1);
        lemma_concat_push(parts, count);
        let shorter = concat(parts.subrange(0, count));
        let longer = concat(parts.subrange(0, count + 1));
        assert(concat(parts).subrange(0, shorter.len() as int) =~= longer.subrange(
            0,
            shorter.len() as int,
        ));
        assert(longer.subrange(0, shorter.len() as int) =~= shorter);
    }
}

/// Part `i` lies between its start and the next part's start.
pub proof fn lemma_concat_part(parts: Seq<Seq<u8>>, i: int)
    requires
        0 <= i < parts.len(),
    ensures
        part_start(parts, i) + parts[i].len() == part_start(parts, i + 1),
        part_start(parts, i + 1) <= concat(parts).len(),
        concat(parts).subrange(part_start(parts, i) as int, part_start(parts, i + 1) as int)
            == parts[i],
{
    lemma_concat_push(parts, i);
    lemma_concat_prefix(parts, i + 1);
    let whole = concat(parts);
    let start = part_start(parts, i) as int;
    let end = part_start(parts, i + 1) as int;
    assert(whole.subrange(start, end) =~= whole.subrange(0, end).subrange(start, end));
    assert(concat(parts.subrange(0, i + 1)).subrange(start, end) =~= parts[i]);
}

/// The whole concatenation ends where the last part ends.
pub proof fn lemma_concat_length(parts: Seq<Seq<u8>>)
    ensures
        part_start(parts, parts.len() as int) == concat(parts).len(),
{
    assert(parts.subrange(0, parts.len() as int) =~= parts);
}

/// Part starts grow with the index.
pub proof fn lemma_part_start_grows(parts: Seq<Seq<u8>>, i: int, j: int)
    requires
        0 <= i <= j <= parts.len(),
    ensures
        part_start(parts, i) <= part_start(parts, j),
    decreases j - i,
{
    if i < j {
        lemma_part_start_grows(parts, i, j - 1);
        lemma_concat_push(parts, j - 1);
    }
}

} // verus!
