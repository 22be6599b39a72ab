//! The names that users may take.

use vstd::prelude::*;

verus! {

/// Why a name is refused.
#[derive(Debug, Clone, Copy, PartialEq, Eq, Structural)]
pub enum NameError {
    /// The name is empty.
    Empty,
    /// The name holds a character that is neither a letter of the English
    /// alphabet nor a digit.
    IllegalCharacter,
}

/// Whether `c` is an upper-case or lower-case letter of the English
/// alphabet or a digit.
pub open spec fn is_name_char(c: char) -> bool {
    'a' <= c <= 'z' || 'A' <= c <= 'Z' || '0' <= c <= '9'
}

/// Whether every character of `name` may stand in a name.
pub open spec fn all_name_chars(name: Seq<char>) -> bool {
    forall|i: int| 0 <= i < name.len() ==> is_name_char(#[trigger] name[i])
}

/// Accepts a name that is not empty and made of letters and digits alone.
pub fn validate_name(name: &str) -> (checked: Result<(), NameError>)
    ensures
        name@.len() == 0 ==> checked == Err::<(), _>(NameError::Empty),
        name@.len() > 0 && !all_name_chars(name@) ==> checked == Err::<(), _>(
            NameError::IllegalCharacter,
        ),
        name@.len() > 0 && all_name_chars(name@) ==> checked is Ok,
{
    if name.is_empty() {
        return Err(NameError::Empty);
    }
    let mut legal: bool = true;
    for c in it: name.chars()
        invariant
            it.seq() == name@,
            legal == all_name_chars(name@.take(it.index() as int)),
    {
        proof {
            let i = it.index() as int;
            assert(name@.take(i + 1) =~= name@.take(i).push(name@[i]));
            if all_name_chars(name@.take(i + 1)) {
                assert forall|k: int| 0 <= k < i implies is_name_char(
                    #[trigger] name@.take(i)[k],
                ) by {
                    assert(name@.take(i + 1)[k] == name@.take(i)[k]);
                }
                assert(is_name_char(name@.take(i + 1)[i]));
            }
        }
        legal = legal && (('a' <= c && c <= 'z') || ('A' <= c && c <= 'Z') || ('0' <= c && c <= '9'));
    }
    proof {
        assert(name@.take(name@.len() as int) =~= name@);
    }
    if legal {
        Ok(())
    } else {
        Err(NameError::IllegalCharacter)
    }
}

} // verus!
