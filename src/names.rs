//! The client's check of a chosen display name against the roster.

use vstd::prelude::*;
use vstd::string::StrSliceExecFns;

verus! {

/// Why a display name cannot be used.
#[derive(Debug, Clone, Copy, PartialEq, Eq)]
pub enum NameError {
    /// Someone on the roster already has it.
    Taken,
    /// It holds `#`, which the protocol reserves.
    Reserved,
}

/// Whether `name` is a whole space-separated word of `roster` starting at `i`.
pub open spec fn word_at(roster: Seq<char>, name: Seq<char>, i: int) -> bool {
    &&& 0 <= i
    &&& i + name.len() <= roster.len()
    &&& roster.subrange(i, i + name.len()) == name
    &&& (i == 0 || roster[i - 1] == ' ')
    &&& (i + name.len() == roster.len() || roster[i + name.len()] == ' ')
}

/// Whether `name` is one of the names of `roster`.
pub open spec fn on_roster(roster: Seq<char>, name: Seq<char>) -> bool {
    exists|i: int| word_at(roster, name, i)
}

/// Whether `name` holds the reserved character `#`.
pub open spec fn has_reserved(name: Seq<char>) -> bool {
    exists|k: int| 0 <= k < name.len() && name[k] == '#'
}

/// Whether the characters of `name` stand in `roster` from `i` on.
fn matches_at(roster: &str, name: &str, i: usize, roster_len: usize, name_len: usize) -> (r: bool)
    requires
        roster_len == roster@.len(),
        name_len == name@.len(),
        i + name_len <= roster_len,
    ensures
        r == (roster@.subrange(i as int, i + name_len) == name@),
{
    let mut k: usize = 0;
    while k < name_len
        invariant
            0 <= k <= name_len,
            i + name_len <= roster_len,
            roster_len == roster@.len(),
            name_len == name@.len(),
            forall|j: int| 0 <= j < k ==> roster@[i + j] == name@[j],
        decreases name_len - k,
    {
        if roster.get_char(i + k) != name.get_char(k) {
            assert(roster@.subrange(i as int, i + name_len)[k as int] != name@[k as int]);
            return false;
        }
        k = k + 1;
    }
    assert(roster@.subrange(i as int, i + name_len) =~= name@);
    true
}

/// Checks a chosen name against the roster that the host sent: it must not
/// be taken and must not hold `#`. A taken name is reported first.
pub fn check_name(roster: &str, name: &str) -> (r: Result<(), NameError>)
    ensures
        r == if on_roster(roster@, name@) {
            Err(NameError::Taken)
        } else if has_reserved(name@) {
            Err(NameError::Reserved)
        } else {
            Ok::<(), NameError>(())
        },
{
    let roster_len = roster.unicode_len();
    let name_len = name.unicode_len();
    if name_len <= roster_len {
        let last = roster_len - name_len;
        let mut i: usize = 0;
        loop
            invariant
                roster_len == roster@.len(),
                name_len == name@.len(),
                last == roster_len - name_len,
                0 <= i <= last,
                forall|j: int| 0 <= j < i ==> !word_at(roster@, name@, j),
            ensures
                forall|j: int| 0 <= j <= last ==> !word_at(roster@, name@, j),
            decreases last - i,
        {
            let starts = i == 0 || roster.get_char(i - 1) == ' ';
            let ends = i + name_len == roster_len || roster.get_char(i + name_len) == ' ';
            if starts && ends && matches_at(roster, name, i, roster_len, name_len) {
                assert(word_at(roster@, name@, i as int));
                return Err(NameError::Taken);
            }
            if i == last {
                break;
            }
            i = i + 1;
        }
    }
    assert(!on_roster(roster@, name@));
    let mut k: usize = 0;
    while k < name_len
        invariant
            name_len == name@.len(),
            0 <= k <= name_len,
            forall|j: int| 0 <= j < k ==> name@[j] != '#',
            !on_roster(roster@, name@),
        decreases name_len - k,
    {
        if name.get_char(k) == '#' {
            assert(name@[k as int] == '#');
            return Err(NameError::Reserved);
        }
        k = k + 1;
    }
    Ok(())
}

} // verus!
