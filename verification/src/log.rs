//! Messages for the system log.

use crate::text::chars_of;
use vstd::prelude::*;
use vstd::string::*;

verus! {

/// How important a message is.
#[derive(Debug, Clone, Copy, PartialEq, Eq, Structural)]
pub enum Level {
    Debug,
    Error,
}

impl Level {
    /// The priority in the system log.
    pub fn priority(self) -> (priority: i32)
        ensures
            priority == (match self {
                Level::Debug => 3i32,
                Level::Error => 6i32,
            }),
    {
        match self {
            Level::Debug => 3,
            Level::Error => 6,
        }
    }
}

/// The text with a question mark in place of each zero character.
pub open spec fn without_nul(s: Seq<char>) -> Seq<char> {
    s.map_values(
        |c: char|
            if c == '\0' {
                '?'
            } else {
                c
            },
    )
}

/// The text of a message as it goes to the log, which takes no zero characters.
pub fn message_text(msg: &str) -> (text: String)
    ensures
        text@ == without_nul(msg@),
{
    let chars: Vec<char> = chars_of(msg);
    let mut text = String::new();
    let mut i: usize = 0;
    while i < chars.len()
        invariant
            i <= chars@.len(),
            text@ =~= without_nul(chars@.take(i as int)),
        decreases chars.len() - i,
    {
        if chars[i] == '\0' {
            text.push('?');
        } else {
            text.push(chars[i]);
        }
        i = i + 1;
    }
    assert(chars@.take(i as int) =~= chars@);
    text
}

/// A message goes to the log character by character; only a zero, which would cut it
/// short, becomes a question mark.
pub proof fn law_message_kept(s: Seq<char>, i: int)
    requires
        0 <= i < s.len(),
    ensures
        without_nul(s).len() == s.len(),
        s[i] != '\0' ==> without_nul(s)[i] == s[i],
        s[i] == '\0' ==> without_nul(s)[i] == '?',
        !without_nul(s).contains('\0'),
{
}

} // verus!
