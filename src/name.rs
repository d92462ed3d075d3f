use vstd::prelude::*;

verus! {

/// The longest queue name, in characters, that leaves room in the store's
/// identifier limit for the table prefix and partition suffixes.
pub const MAX_QUEUE_NAME_LEN: usize = 47;

/// A character that may stand in a queue name.
pub open spec fn name_char(c: char) -> bool {
    ('a' <= c && c <= 'z') || ('0' <= c && c <= '9') || c == '_'
}

/// A queue name that is safe as part of a storage identifier: one to
/// `MAX_QUEUE_NAME_LEN` lower-case letters, digits and underscores, not
/// starting with a digit.
pub open spec fn valid_queue_name(s: Seq<char>) -> bool {
    &&& 0 < s.len() <= MAX_QUEUE_NAME_LEN
    &&& forall|i: int| 0 <= i < s.len() ==> name_char(#[trigger] s[i])
    &&& !('0' <= s[0] && s[0] <= '9')
}

/// Whether `name` may name a queue.
pub fn is_valid_queue_name(name: &str) -> (r: bool)
    ensures
        r == valid_queue_name(name@),
{
    let n: usize = name.unicode_len();
    if n == 0 || n > MAX_QUEUE_NAME_LEN {
        return false;
    }
    let first = name.get_char(0);
    if '0' <= first && first <= '9' {
        return false;
    }
    let mut i: usize = 0;
    while i < n
        invariant
            n == name@.len(),
            0 <= i <= n,
            forall|j: int| 0 <= j < i ==> name_char(#[trigger] name@[j]),
        decreases n - i,
    {
        let c = name.get_char(i);
        if !(('a' <= c && c <= 'z') || ('0' <= c && c <= '9') || c == '_') {
            return false;
        }
        i = i + 1;
    }
    true
}

} // verus!
