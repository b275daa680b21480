//! The files of a journal: their names, and the order in which they are read.

use crate::text;
use vstd::prelude::*;
use vstd::string::StringSliceAdditionalSpecFns;

verus! {

/// Digits that a segment's index has in its file name, at least.
pub const INDEX_DIGITS: usize = 8;

/// What a segment's file name starts with: `journal-`.
pub open spec fn prefix_bytes() -> Seq<u8> {
    seq![106, 111, 117, 114, 110, 97, 108, 45]
}

/// What a segment's file name ends with: `.bjl`.
pub open spec fn suffix_bytes() -> Seq<u8> {
    seq![46, 98, 106, 108]
}

/// The file name of a segment.
pub open spec fn name_bytes(index: u32) -> Seq<u8> {
    prefix_bytes() + text::digits(index as nat, INDEX_DIGITS as nat) + suffix_bytes()
}

/// The index that a file name stands for, if it is one of a segment: the prefix, an unsigned
/// 32-bit number, and the suffix.
pub open spec fn index_of(name: Seq<u8>) -> Option<u32> {
    if name.len() < 12 || name.take(8) != prefix_bytes() || name.skip(name.len() - 4)
        != suffix_bytes() {
        None
    } else {
        match text::number(name.subrange(8, name.len() - 4), u32::MAX as nat) {
            Some(index) => Some(index as u32),
            None => None,
        }
    }
}

/// A segment's name gives its index back.
pub proof fn law_segment_names_round_trip(index: u32)
    ensures
        index_of(name_bytes(index)) == Some(index),
        text::all_ascii(name_bytes(index)),
{
    let digits = text::digits(index as nat, INDEX_DIGITS as nat);
    text::lemma_digits_spell(index as nat, INDEX_DIGITS as nat);
    let name = name_bytes(index);
    assert(name.take(8) =~= prefix_bytes());
    assert(name.skip(name.len() - 4) =~= suffix_bytes());
    assert(name.subrange(8, name.len() - 4) =~= digits);
    assert(text::unsigned_part(digits) == digits) by {
        assert(digits[0] >= crate::ascii::ZERO);
    }
    assert(text::is_number(digits));
}

/// Name of segment `index`.
pub fn segment_name(index: u32) -> (r: String)
    ensures
        r@ == text::chars_of(name_bytes(index)),
{
    let prefix: [u8; 8] = [106, 111, 117, 114, 110, 97, 108, 45];
    let suffix: [u8; 4] = [46, 98, 106, 108];
    assert(prefix@ =~= prefix_bytes());
    assert(suffix@ =~= suffix_bytes());
    let mut name: String = String::new();
    text::push_bytes(&mut name, prefix.as_slice());
    text::push_number(&mut name, index as u64, INDEX_DIGITS);
    text::push_bytes(&mut name, suffix.as_slice());
    assert(name@ =~= text::chars_of(name_bytes(index)));
    name
}

/// Parses a segment file name back into its index. `None` if it is not one of a segment.
pub fn segment_index(name: &str) -> (r: Option<u32>)
    ensures
        r == index_of(name.spec_bytes()),
{
    let prefix: [u8; 8] = [106, 111, 117, 114, 110, 97, 108, 45];
    let suffix: [u8; 4] = [46, 98, 106, 108];
    assert(prefix@ =~= prefix_bytes());
    assert(suffix@ =~= suffix_bytes());
    let bytes: &[u8] = name.as_bytes();
    let len: usize = bytes.len();
    if len < 12 {
        return None;
    }
    let head: &[u8] = vstd::slice::slice_subrange(bytes, 0, 8);
    let tail: &[u8] = vstd::slice::slice_subrange(bytes, len - 4, len);
    assert(head@ =~= bytes@.take(8));
    assert(tail@ =~= bytes@.skip(len - 4));
    if !text::same_bytes(head, prefix.as_slice()) || !text::same_bytes(tail, suffix.as_slice()) {
        return None;
    }
    match text::parse_number(vstd::slice::slice_subrange(bytes, 8, len - 4), u32::MAX as u64) {
        Some(index) => Some(index as u32),
        None => None,
    }
}

/// The index of the `i`-th of some file names, if it is one of a segment.
pub open spec fn index_at(names: Seq<String>, i: int) -> Option<u32> {
    index_of(vstd::utf8::encode_utf8(names[i]@))
}

/// The index for a new segment next to files of these names: numbering continues after the
/// highest segment present, so none is ever overwritten.
pub fn next_segment_index(names: &[String]) -> (r: u32)
    ensures
        (forall|i: int| 0 <= i < names@.len() ==> #[trigger] index_at(names@, i) is None) ==> r == 0,
        forall|i: int|
            0 <= i < names@.len() ==> (#[trigger] index_at(names@, i) matches Some(index)
                ==> index.saturating_add(1) <= r),
        (exists|i: int| 0 <= i < names@.len() && #[trigger] index_at(names@, i) is Some)
            ==> exists|i: int|
            0 <= i < names@.len() && (#[trigger] index_at(names@, i) matches Some(index) && r
                == index.saturating_add(1)),
{
    let mut next: u32 = 0;
    let ghost mut found: Option<int> = None;
    let mut i: usize = 0;
    while i < names.len()
        invariant
            i <= names.len(),
            found is None ==> next == 0 && forall|k: int|
                0 <= k < i ==> #[trigger] index_at(names@, k) is None,
            found matches Some(at) ==> 0 <= at < i && (index_at(names@, at) matches Some(index)
                && next == index.saturating_add(1)),
            forall|k: int|
                0 <= k < i ==> (#[trigger] index_at(names@, k) matches Some(index) ==> index.saturating_add(1)
                    <= next),
        decreases names.len() - i,
    {
        if let Some(index) = segment_index(names[i].as_str()) {
            assert(index_at(names@, i as int) == Some(index));
            let candidate: u32 = index.saturating_add(1);
            proof {
                if found is None {
                    found = Some(i as int);
                }
            }
            if candidate > next {
                next = candidate;
                proof {
                    found = Some(i as int);
                }
            }
        }
        i = i + 1;
    }
    next
}

/// Segment numbers are missing: a file was lost.
#[derive(Clone, Copy, Debug, PartialEq, Eq, Structural)]
pub struct MissingSegment {
    /// The next index expected.
    pub expected: u32,
    /// The index found instead.
    pub found: u32,
}

/// Whether `order` lists the files that are segments, each once, by rising index.
pub open spec fn by_index(names: Seq<String>, order: Seq<usize>) -> bool {
    &&& forall|i: int|
        0 <= i < order.len() ==> (#[trigger] order[i]) < names.len() && index_at(
            names,
            order[i] as int,
        ) is Some
    &&& order.no_duplicates()
    &&& forall|k: int|
        0 <= k < names.len() && #[trigger] index_at(names, k) is Some ==> order.contains(k as usize)
    &&& forall|i: int, j: int|
        0 <= i < j < order.len() ==> index_at(names, (#[trigger] order[i]) as int).unwrap()
            <= index_at(names, (#[trigger] order[j]) as int).unwrap()
}

/// Whether the `i`-th file of `order` is directly followed by the next segment.
pub open spec fn followed(names: Seq<String>, order: Seq<usize>, i: int) -> bool {
    index_at(names, order[i] as int).unwrap().saturating_add(1) == index_at(
        names,
        order[i + 1] as int,
    ).unwrap()
}

/// Whether `order` lists the segments among the files in reading order, with none missing
/// between the first and the last.
pub open spec fn complete(names: Seq<String>, order: Seq<usize>) -> bool {
    by_index(names, order) && forall|i: int|
        0 <= i < order.len() - 1 ==> #[trigger] followed(names, order, i)
}

/// Whether this is the first place where a segment is not followed by the next one.
pub open spec fn first_missing(names: Seq<String>, missing: MissingSegment) -> bool {
    exists|order: Seq<usize>, i: int|
        {
            &&& by_index(names, order)
            &&& 0 <= i < order.len() - 1
            &&& !#[trigger] followed(names, order, i)
            &&& forall|k: int| 0 <= k < i ==> #[trigger] followed(names, order, k)
            &&& missing.expected == index_at(names, order[i] as int).unwrap().saturating_add(1)
            &&& missing.found == index_at(names, order[i + 1] as int).unwrap()
        }
}

/// Calls `slice::sort_unstable_by_key` of std with the segment index of each pair: the pairs
/// are the same as before, by rising index.
#[verifier::external_body]
fn sort_by_index(found: &mut Vec<(u32, usize)>)
    ensures
        final(found)@.to_multiset() == old(found)@.to_multiset(),
        forall|i: int, j: int|
            0 <= i < j < final(found)@.len() ==> (#[trigger] final(found)@[i]).0 <= (
            #[trigger] final(found)@[j]).0,
{
    found.sort_unstable_by_key(|pair| pair.0);
}

/// Whether `pairs` lists the segments among the first `n` names with their indices, each once.
spec fn listed(names: Seq<String>, n: int, pairs: Seq<(u32, usize)>) -> bool {
    &&& forall|i: int|
        0 <= i < pairs.len() ==> (#[trigger] pairs[i]).1 < n && index_at(names, pairs[i].1 as int)
            == Some(pairs[i].0)
    &&& forall|i: int, j: int|
        0 <= i < j < pairs.len() ==> (#[trigger] pairs[i]).1 != (#[trigger] pairs[j]).1
    &&& forall|k: int|
        0 <= k < n && (#[trigger] index_at(names, k)) is Some ==> exists|i: int|
            0 <= i < pairs.len() && (#[trigger] pairs[i]).1 == k
}

/// Rearranging a listing leaves it a listing.
proof fn lemma_rearranged(names: Seq<String>, n: int, a: Seq<(u32, usize)>, b: Seq<(u32, usize)>)
    requires
        listed(names, n, a),
        a.to_multiset() == b.to_multiset(),
    ensures
        listed(names, n, b),
{
    broadcast use vstd::seq_lib::group_to_multiset_ensures;

    assert(a.no_duplicates());
    a.lemma_multiset_has_no_duplicates();
    b.lemma_multiset_has_no_duplicates_conv();
    assert forall|i: int| 0 <= i < b.len() implies a.contains(#[trigger] b[i]) by {
        assert(b.contains(b[i]));
        assert(a.to_multiset().count(b[i]) > 0);
    }
    assert forall|i: int| 0 <= i < b.len() implies (#[trigger] b[i]).1 < n && index_at(
        names,
        b[i].1 as int,
    ) == Some(b[i].0) by {
        let k = choose|k: int| 0 <= k < a.len() && a[k] == b[i];
        assert(a[k].1 < n);
    }
    assert forall|i: int, j: int| 0 <= i < j < b.len() implies (#[trigger] b[i]).1 != (
    #[trigger] b[j]).1 by {
        let k = choose|k: int| 0 <= k < a.len() && a[k] == b[i];
        let m = choose|m: int| 0 <= m < a.len() && a[m] == b[j];
        assert(b[i] != b[j]);
        assert(k != m);
        if k < m {
            assert(a[k].1 != a[m].1);
        } else {
            assert(a[m].1 != a[k].1);
        }
    }
    assert forall|k: int| 0 <= k < n && (#[trigger] index_at(names, k)) is Some implies exists|
        i: int,
    |
        0 <= i < b.len() && (#[trigger] b[i]).1 == k by {
        let m = choose|m: int| 0 <= m < a.len() && (#[trigger] a[m]).1 == k;
        assert(a.contains(a[m]));
        assert(b.to_multiset().count(a[m]) > 0);
        let i = choose|i: int| 0 <= i < b.len() && b[i] == a[m];
        assert(b[i].1 == k);
    }
}

/// Puts the segments among these file names in reading order. Other files are passed over.
///
/// # Errors
/// [`MissingSegment`] for the first segment that is not followed by the next one.
pub fn reading_order(names: &[String]) -> (r: Result<Vec<usize>, MissingSegment>)
    ensures
        match r {
            Ok(order) => complete(names@, order@),
            Err(missing) => first_missing(names@, missing),
        },
{
    let mut found: Vec<(u32, usize)> = Vec::new();
    let mut i: usize = 0;
    while i < names.len()
        invariant
            i <= names.len(),
            listed(names@, i as int, found@),
        decreases names.len() - i,
    {
        let ghost before = found@;
        if let Some(index) = segment_index(names[i].as_str()) {
            assert(index_at(names@, i as int) == Some(index));
            found.push((index, i));
            assert forall|k: int|
                0 <= k < i + 1 && (#[trigger] index_at(names@, k)) is Some implies exists|m: int|
                0 <= m < found@.len() && (#[trigger] found@[m]).1 == k by {
                if k < i {
                    let m = choose|m: int| 0 <= m < before.len() && (#[trigger] before[m]).1 == k;
                    assert(found@[m].1 == k);
                } else {
                    assert(found@[before.len() as int].1 == k);
                }
            }
        } else {
            assert(index_at(names@, i as int) is None);
        }
        i = i + 1;
    }
    let ghost unsorted = found@;
    sort_by_index(&mut found);
    proof {
        lemma_rearranged(names@, names@.len() as int, unsorted, found@);
    }
    let mut order: Vec<usize> = Vec::with_capacity(found.len());
    let mut n: usize = 0;
    while n < found.len()
        invariant
            n <= found.len(),
            order@.len() == n,
            forall|k: int| 0 <= k < n ==> #[trigger] order@[k] == found@[k].1,
        decreases found.len() - n,
    {
        order.push(found[n].1);
        n = n + 1;
    }
    proof {
        assert(by_index(names@, order@)) by {
            assert forall|i: int| 0 <= i < order@.len() implies (#[trigger] order@[i])
                < names@.len() && index_at(names@, order@[i] as int) is Some by {
                assert(found@[i].1 < names@.len());
            }
            assert forall|i: int, j: int|
                0 <= i < order@.len() && 0 <= j < order@.len() && i != j implies order@[i]
                != order@[j] by {
                if i < j {
                    assert(found@[i].1 != found@[j].1);
                } else {
                    assert(found@[j].1 != found@[i].1);
                }
            }
            assert forall|k: int|
                0 <= k < names@.len() && #[trigger] index_at(names@, k) is Some implies order@.contains(
            k as usize) by {
                let m = choose|m: int| 0 <= m < found@.len() && (#[trigger] found@[m]).1 == k;
                assert(order@[m] == k as usize);
            }
            assert forall|i: int, j: int| 0 <= i < j < order@.len() implies index_at(
                names@,
                (#[trigger] order@[i]) as int,
            ).unwrap() <= index_at(names@, (#[trigger] order@[j]) as int).unwrap() by {
                assert(found@[i].0 <= found@[j].0);
            }
        }
    }
    let mut k: usize = 1;
    while k < found.len()
        invariant
            1 <= k,
            order@.len() == found@.len(),
            by_index(names@, order@),
            forall|m: int| 0 <= m < order@.len() ==> #[trigger] order@[m] == found@[m].1,
            listed(names@, names@.len() as int, found@),
            forall|m: int| 0 <= m < k - 1 && m < order@.len() - 1 ==> #[trigger] followed(names@, order@, m),
        decreases found.len() - k,
    {
        let expected: u32 = found[k - 1].0.saturating_add(1);
        proof {
            assert(order@[k - 1] == found@[k - 1].1 && order@[k as int] == found@[k as int].1);
            assert(index_at(names@, order@[k - 1] as int) == Some(found@[k - 1].0));
            assert(index_at(names@, order@[k as int] as int) == Some(found@[k as int].0));
        }
        if expected != found[k].0 {
            assert(!followed(names@, order@, k - 1));
            return Err(MissingSegment { expected, found: found[k].0 });
        }
        assert(followed(names@, order@, k - 1));
        k = k + 1;
    }
    Ok(order)
}

/// A file name is one of a segment exactly when it is `journal-`, an unsigned number that fits in
/// 32 bits, and `.bjl`, and the segment's index is that number.
pub proof fn law_names_with_a_number_are_segments(name: Seq<u8>)
    ensures
        ({
            let number = text::number(name.subrange(8, name.len() - 4), 0xffff_ffff);
            let named = name.len() >= 12 && name.take(8) == seq![
                0x6au8,
                0x6f,
                0x75,
                0x72,
                0x6e,
                0x61,
                0x6c,
                0x2d,
            ] && name.skip(name.len() - 4) == seq![0x2eu8, 0x62, 0x6a, 0x6c];
            &&& index_of(name) is Some <==> named && number is Some
            &&& index_of(name) is Some ==> index_of(name)->0 == number->0
        }),
{
    assert(prefix_bytes() =~= seq![0x6au8, 0x6f, 0x75, 0x72, 0x6e, 0x61, 0x6c, 0x2d]);
    assert(suffix_bytes() =~= seq![0x2eu8, 0x62, 0x6a, 0x6c]);
}

/// A segment's name has at least eight digits, and two segments never have the same name.
pub proof fn law_segment_names_differ(a: u32, b: u32)
    ensures
        name_bytes(a).len() >= 20,
        a != b ==> name_bytes(a) != name_bytes(b),
{
    law_segment_names_round_trip(a);
    law_segment_names_round_trip(b);
    text::lemma_digits_spell(a as nat, INDEX_DIGITS as nat);
}

/// A journal whose segments are complete is read in the order of their numbers, which rise by one
/// from file to file, and every segment among the files is read, once.
pub proof fn law_complete_journals_are_read_number_by_number(
    names: Seq<String>,
    order: Seq<usize>,
    i: int,
)
    requires
        complete(names, order),
        0 <= i < order.len(),
        index_at(names, order[0] as int)->0 + i <= 0xffff_ffff,
    ensures
        order[i] < names.len(),
        index_at(names, order[i] as int) is Some,
        index_at(names, order[i] as int)->0 == index_at(names, order[0] as int)->0 + i,
        order.no_duplicates(),
        forall|k: int|
            0 <= k < names.len() && #[trigger] index_at(names, k) is Some ==> order.contains(
                k as usize,
            ),
    decreases i,
{
    if i > 0 {
        law_complete_journals_are_read_number_by_number(names, order, i - 1);
        assert(followed(names, order, i - 1));
    }
}

/// What is reported as missing is the number after that of a segment that is there, and what was
/// found in its place is the number of another. It is not reported of a journal that is complete.
pub proof fn law_missing_segments_leave_a_hole(names: Seq<String>, missing: MissingSegment)
    requires
        first_missing(names, missing),
    ensures
        missing.found != missing.expected,
        exists|k: int|
            0 <= k < names.len() && #[trigger] index_at(names, k) == Some(missing.found),
        missing.expected < 0xffff_ffff ==> exists|k: int|
            0 <= k < names.len() && (#[trigger] index_at(names, k)) is Some && index_at(
                names,
                k,
            )->0 + 1 == missing.expected,
{
    let (order, i) = choose|order: Seq<usize>, i: int|
        {
            &&& by_index(names, order)
            &&& 0 <= i < order.len() - 1
            &&& !#[trigger] followed(names, order, i)
            &&& forall|k: int| 0 <= k < i ==> #[trigger] followed(names, order, k)
            &&& missing.expected == index_at(names, order[i] as int).unwrap().saturating_add(1)
            &&& missing.found == index_at(names, order[i + 1] as int).unwrap()
        };
    assert(order[i] < names.len() && order[i + 1] < names.len());
    assert(index_at(names, order[i + 1] as int) == Some(missing.found));
    assert(index_at(names, order[i] as int) is Some);
}

} // verus!
