//! Archive file naming: `blkNNNNN.dat` files, numbered by their five digits,
//! read as one contiguous run of indices.

use vstd::prelude::*;

verus! {

pub open spec fn digit_value(c: char) -> nat {
    (c as nat - '0' as nat) as nat
}

pub open spec fn is_digit(c: char) -> bool {
    '0' <= c && c <= '9'
}

/// Decimal value of the characters of `s` from 3 up to `j`.
pub open spec fn digits_value(s: Seq<char>, j: int) -> nat
    decreases j,
{
    if j <= 3 {
        0
    } else {
        10 * digits_value(s, j - 1) + digit_value(s[j - 1])
    }
}

/// The index of an archive file name: `blk`, five digits, `.dat`.
pub open spec fn blk_index(name: Seq<char>) -> Option<nat> {
    if name.len() == 12 && name[0] == 'b' && name[1] == 'l' && name[2] == 'k' && (forall|i: int|
        3 <= i < 8 ==> is_digit(#[trigger] name[i])) && name[8] == '.' && name[9] == 'd'
        && name[10] == 'a' && name[11] == 't' {
        Some(digits_value(name, 8))
    } else {
        None
    }
}

proof fn lemma_digits_bound(s: Seq<char>, j: int)
    requires
        3 <= j <= 8,
        forall|i: int| 3 <= i < j ==> is_digit(#[trigger] s[i]),
    ensures
        digits_value(s, j) < 100000,
        j <= 7 ==> digits_value(s, j) < 10000,
        j <= 6 ==> digits_value(s, j) < 1000,
        j <= 5 ==> digits_value(s, j) < 100,
        j <= 4 ==> digits_value(s, j) < 10,
    decreases j,
{
    if j > 3 {
        lemma_digits_bound(s, j - 1);
    }
}

proof fn lemma_blk_index_bound(name: Seq<char>)
    ensures
        blk_index(name) matches Some(v) ==> v < 100000,
{
    if blk_index(name) is Some {
        lemma_digits_bound(name, 8);
    }
}

/// Reads the index of an archive file name; other names are not archives.
pub fn parse_blk_index(name: &str) -> (r: Option<u64>)
    ensures
        match blk_index(name@) {
            Some(v) => r == Some(v as u64),
            None => r is None,
        },
{
    if name.unicode_len() != 12 {
        return None;
    }
    if name.get_char(0) != 'b' || name.get_char(1) != 'l' || name.get_char(2) != 'k' {
        return None;
    }
    if name.get_char(8) != '.' || name.get_char(9) != 'd' || name.get_char(10) != 'a'
        || name.get_char(11) != 't' {
        return None;
    }
    let mut v: u64 = 0;
    let mut i: usize = 3;
    while i < 8
        invariant
            name@.len() == 12,
            3 <= i <= 8,
            forall|k: int| 3 <= k < i ==> is_digit(#[trigger] name@[k]),
            v as nat == digits_value(name@, i as int),
        decreases 8 - i,
    {
        let c = name.get_char(i);
        if c < '0' || c > '9' {
            return None;
        }
        proof {
            lemma_digits_bound(name@, i as int);
        }
        v = 10 * v + (c as u64 - '0' as u64);
        i = i + 1;
    }
    Some(v)
}

/// Whether some name of the list names the archive file with index `v`.
pub open spec fn names_index(names: Seq<String>, v: nat) -> bool {
    exists|i: int| 0 <= i < names.len() && blk_index(names[i]@) == Some(v)
}

/// Whether some name of the list is the archive file with index `k`.
pub open spec fn has_index(idx: Seq<Option<u64>>, k: nat) -> bool {
    exists|i: int| 0 <= i < idx.len() && idx[i] == Some(k as u64)
}

fn contains_index(idx: &Vec<Option<u64>>, k: u64) -> (r: bool)
    ensures
        r == has_index(idx@, k as nat),
{
    let mut i: usize = 0;
    while i < idx.len()
        invariant
            i <= idx@.len(),
            forall|q: int| 0 <= q < i ==> idx@[q] != Some(k),
        decreases idx@.len() - i,
    {
        if idx[i] == Some(k) {
            return true;
        }
        i = i + 1;
    }
    false
}

/// The archive files to read, by index: the run `start, start + 1, ...` of
/// indices that the directory's names hold, ascending, up to the first gap.
/// Names that are not archive files are ignored.
pub fn archive_indices(names: &Vec<String>, start: u64) -> (r: Vec<u64>)
    ensures
        forall|k: int| 0 <= k < r@.len() ==> r@[k] == start + k,
        forall|k: int|
            0 <= k < r@.len() ==> names_index(names@, #[trigger] r@[k] as nat),
        forall|i: int|
            0 <= i < names@.len() ==> blk_index(#[trigger] names@[i]@) != Some(
                (start + r@.len()) as nat,
            ),
{
    let mut idx: Vec<Option<u64>> = Vec::new();
    let mut i: usize = 0;
    while i < names.len()
        invariant
            i <= names@.len(),
            idx@.len() == i,
            forall|q: int| 0 <= q < i ==> #[trigger] idx@[q] == match blk_index(names@[q]@) {
                Some(v) => Some(v as u64),
                None => None::<u64>,
            },
        decreases names@.len() - i,
    {
        idx.push(parse_blk_index(names[i].as_str()));
        i = i + 1;
    }
    let mut out: Vec<u64> = Vec::new();
    let mut k: u64 = start;
    while k < u64::MAX && contains_index(&idx, k)
        invariant
            start <= k,
            out@.len() == k - start,
            idx@.len() == names@.len(),
            forall|q: int| 0 <= q < names@.len() ==> #[trigger] idx@[q] == match blk_index(names@[q]@) {
                Some(v) => Some(v as u64),
                None => None::<u64>,
            },
            forall|q: int| 0 <= q < out@.len() ==> out@[q] == start + q,
            forall|q: int|
                0 <= q < out@.len() ==> names_index(names@, #[trigger] out@[q] as nat),
        decreases u64::MAX - k,
    {
        let ghost w = choose|i: int| 0 <= i < idx@.len() && idx@[i] == Some(k);
        proof {
            lemma_blk_index_bound(names@[w]@);
            assert(blk_index(names@[w]@) == Some(k as nat));
        }
        let ghost before = out@;
        out.push(k);
        proof {
            assert forall|q: int| 0 <= q < out@.len() implies names_index(
                names@,
                #[trigger] out@[q] as nat,
            ) by {
                if q == out@.len() - 1 {
                    assert(out@[q] == k);
                    assert(blk_index(names@[w]@) == Some(out@[q] as nat));
                } else {
                    assert(out@[q] == before[q]);
                }
            }
        }
        k = k + 1;
    }
    proof {
        assert forall|i: int| 0 <= i < names@.len() implies blk_index(
            #[trigger] names@[i]@,
        ) != Some(k as nat) by {
            lemma_blk_index_bound(names@[i]@);
            if blk_index(names@[i]@) == Some(k as nat) {
                assert(idx@[i] == Some(k));
            }
        }
    }
    out
}

} // verus!
