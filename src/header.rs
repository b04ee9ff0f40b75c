//! The three header lines: volume name, serial number and root label.
use vstd::prelude::*;
use crate::classify::chars_of;

verus! {

/// Volume metadata read from the header; fixed once parsed.
pub struct TreeInfo {
    pub volume_name: String,
    pub volume_serial_number: String,
    pub volume_tag: String,
}

/// Whether `m` occurs in `s` starting at position `k`.
pub open spec fn occurs_at(s: Seq<char>, m: Seq<char>, k: int) -> bool {
    0 <= k && k + m.len() <= s.len() && s.subrange(k, k + m.len()) == m
}

/// The position of the first occurrence of `m` in `s`, if any.
#[verifier::opaque]
pub open spec fn first_occurrence(s: Seq<char>, m: Seq<char>) -> Option<int> {
    if exists|k: int| occurs_at(s, m, k) {
        Some(
            choose|k: int| occurs_at(s, m, k) && forall|j: int| 0 <= j < k ==> !occurs_at(s, m, j),
        )
    } else {
        None
    }
}

/// What follows the first occurrence of `m` in `s`; none when `m` is absent.
pub open spec fn text_after(s: Seq<char>, m: Seq<char>) -> Option<Seq<char>> {
    match first_occurrence(s, m) {
        Some(k) => Some(s.subrange(k + m.len(), s.len() as int)),
        None => None,
    }
}

/// The marker in front of the volume name on the first line.
pub open spec fn name_marker() -> Seq<char> {
    "Folder PATH listing for volume "@
}

/// The marker in front of the serial number on the second line.
pub open spec fn serial_marker() -> Seq<char> {
    "Volume serial number is "@
}

/// Whether `m` occurs in `s` at `k`, on characters in vectors.
fn matches_at(s: &Vec<char>, m: &Vec<char>, k: usize) -> (r: bool)
    requires
        k + m@.len() <= s@.len(),
    ensures
        r == occurs_at(s@, m@, k as int),
{
    let n = s.len();
    let mut j: usize = 0;
    while j < m.len()
        invariant
            n == s@.len(),
            k + m@.len() <= s@.len(),
            j <= m@.len(),
            forall|i: int| 0 <= i < j ==> s@[k + i] == m@[i],
        decreases m@.len() - j,
    {
        if s[k + j] != m[j] {
            assert(s@.subrange(k as int, k + m@.len())[j as int] != m@[j as int]);
            return false;
        }
        j = j + 1;
    }
    assert(s@.subrange(k as int, k + m@.len()) =~= m@);
    true
}

/// The first position at which `m` occurs in `s`.
pub fn find_first(s: &Vec<char>, m: &Vec<char>) -> (r: Option<usize>)
    ensures
        match r {
            Some(k) => occurs_at(s@, m@, k as int) && first_occurrence(s@, m@) == Some(k as int),
            None => first_occurrence(s@, m@) is None,
        },
{
    reveal(first_occurrence);
    let n = s.len();
    let ml = m.len();
    if ml == 0 {
        assert(occurs_at(s@, m@, 0)) by {
            assert(s@.subrange(0, 0) =~= m@);
        }
        assert(first_occurrence(s@, m@) == Some(0int)) by {
            let kc = choose|kc: int|
                occurs_at(s@, m@, kc) && forall|j: int| 0 <= j < kc ==> !occurs_at(s@, m@, j);
            assert(kc == 0);
        }
        return Some(0);
    }
    let mut k: usize = 0;
    while ml <= n - k
        invariant
            n == s@.len(),
            ml == m@.len(),
            1 <= ml,
            k <= n,
            forall|j: int| 0 <= j < k ==> !occurs_at(s@, m@, j),
        decreases n - k,
    {
        if matches_at(s, m, k) {
            proof {
                reveal(first_occurrence);
                let kc = choose|kc: int|
                    occurs_at(s@, m@, kc) && forall|j: int| 0 <= j < kc ==> !occurs_at(s@, m@, j);
                assert(kc == k);
            }
            return Some(k);
        }
        k = k + 1;
    }
    assert forall|j: int| !occurs_at(s@, m@, j) by {}
    None
}

/// What follows the first occurrence of `marker` in `line`.
fn after_marker(line: &str, marker: &str) -> (r: Option<String>)
    ensures
        match r {
            Some(t) => text_after(line@, marker@) == Some(t@),
            None => text_after(line@, marker@) is None,
        },
{
    let s = chars_of(line);
    let m = chars_of(marker);
    let n = s.len();
    let ml = m.len();
    match find_first(&s, &m) {
        Some(k) => {
            assert(k + ml <= n);
            let t = String::from_str(line.substring_char(k + ml, n));
            assert(text_after(line@, marker@) == Some(t@));
            Some(t)
        },
        None => None,
    }
}

/// The volume name: what follows the first name marker on `line`.
pub fn parse_volume_name(line: &str) -> (r: Option<String>)
    ensures
        match r {
            Some(t) => text_after(line@, name_marker()) == Some(t@),
            None => text_after(line@, name_marker()) is None,
        },
{
    after_marker(line, "Folder PATH listing for volume ")
}

/// The serial number: what follows the first serial marker on `line`.
pub fn parse_serial_number(line: &str) -> (r: Option<String>)
    ensures
        match r {
            Some(t) => text_after(line@, serial_marker()) == Some(t@),
            None => text_after(line@, serial_marker()) is None,
        },
{
    after_marker(line, "Volume serial number is ")
}

} // verus!
