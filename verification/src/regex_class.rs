//! The named POSIX character classes and their predicates.
//!
//! The engine is ASCII-only (the matcher rejects non-ASCII input lines), so
//! every class is defined over the ASCII range.

use vstd::prelude::*;
use crate::error::RegexError;

verus! {

/// A named POSIX character class, as written `[[:name:]]` in a pattern.
#[derive(Debug, Clone, Copy)]
pub enum RegexClass {
    Alpha,
    Alnum,
    Digit,
    Lower,
    Upper,
    Space,
    Punct,
}

/// Whether a character belongs to a class, with ASCII semantics.
///
/// `Space` covers the six ASCII whitespace characters (space, tab, line
/// feed, vertical tab, form feed, carriage return); `Punct` covers the four
/// ASCII punctuation blocks.
pub open spec fn class_matches(class: RegexClass, c: char) -> bool {
    match class {
        RegexClass::Alpha => ('a' <= c && c <= 'z') || ('A' <= c && c <= 'Z'),
        RegexClass::Alnum => ('a' <= c && c <= 'z') || ('A' <= c && c <= 'Z') || ('0' <= c
            && c <= '9'),
        RegexClass::Digit => '0' <= c && c <= '9',
        RegexClass::Lower => 'a' <= c && c <= 'z',
        RegexClass::Upper => 'A' <= c && c <= 'Z',
        RegexClass::Space => c == ' ' || c == '\t' || c == '\n' || c == '\x0b' || c == '\x0c'
            || c == '\r',
        RegexClass::Punct => ('!' <= c && c <= '/') || (':' <= c && c <= '@') || ('[' <= c
            && c <= '`') || ('{' <= c && c <= '~'),
    }
}

/// The class a given name selects, with the surrounding colons included,
/// or `None` for an unknown name.
pub open spec fn class_of_name(name: Seq<char>) -> Option<RegexClass> {
    if name == ":alpha:"@ {
        Some(RegexClass::Alpha)
    } else if name == ":digit:"@ {
        Some(RegexClass::Digit)
    } else if name == ":alnum:"@ {
        Some(RegexClass::Alnum)
    } else if name == ":lower:"@ {
        Some(RegexClass::Lower)
    } else if name == ":upper:"@ {
        Some(RegexClass::Upper)
    } else if name == ":space:"@ {
        Some(RegexClass::Space)
    } else if name == ":punct:"@ {
        Some(RegexClass::Punct)
    } else {
        None
    }
}

impl RegexClass {
    /// Looks a class up by its name, colons included (`":alpha:"`).
    pub fn from_str_to_class(class_name: &str) -> (r: Result<RegexClass, RegexError>)
        ensures
            match r {
                Ok(class) => class_of_name(class_name@) == Some(class),
                Err(e) => class_of_name(class_name@) is None && e
                    == RegexError::InvalidCharacterClassName,
            },
    {
        let chars = str_to_chars(class_name);
        class_from_chars(&chars)
    }

    /// Whether the character belongs to this class.
    pub fn matches(&self, c: &char) -> (r: bool)
        ensures
            r == class_matches(*self, *c),
    {
        let ch = *c;
        match self {
            RegexClass::Alpha => ('a' <= ch && ch <= 'z') || ('A' <= ch && ch <= 'Z'),
            RegexClass::Alnum => ('a' <= ch && ch <= 'z') || ('A' <= ch && ch <= 'Z') || ('0' <= ch
                && ch <= '9'),
            RegexClass::Digit => '0' <= ch && ch <= '9',
            RegexClass::Lower => 'a' <= ch && ch <= 'z',
            RegexClass::Upper => 'A' <= ch && ch <= 'Z',
            RegexClass::Space => ch == ' ' || ch == '\t' || ch == '\n' || ch == '\x0b' || ch
                == '\x0c' || ch == '\r',
            RegexClass::Punct => ('!' <= ch && ch <= '/') || (':' <= ch && ch <= '@') || ('[' <= ch
                && ch <= '`') || ('{' <= ch && ch <= '~'),
        }
    }
}

/// The characters of a string, collected into a vector.
pub fn str_to_chars(s: &str) -> (r: Vec<char>)
    ensures
        r@ == s@,
{
    let n = s.unicode_len();
    let mut chars: Vec<char> = Vec::new();
    let mut i: usize = 0;
    while i < n
        invariant
            i <= n,
            n == s@.len(),
            chars@ == s@.subrange(0, i as int),
        decreases n - i,
    {
        chars.push(s.get_char(i));
        i = i + 1;
        proof {
            assert(chars@ =~= s@.subrange(0, i as int));
        }
    }
    proof {
        assert(chars@ =~= s@);
    }
    chars
}

/// Whether a character vector holds exactly the characters of a string.
pub fn chars_eq_str(chars: &Vec<char>, s: &str) -> (r: bool)
    ensures
        r == (chars@ == s@),
{
    let n = s.unicode_len();
    if chars.len() != n {
        return false;
    }
    let mut i: usize = 0;
    while i < n
        invariant
            i <= n,
            n == s@.len(),
            chars@.len() == n,
            forall|k: int| 0 <= k < i ==> chars@[k] == s@[k],
        decreases n - i,
    {
        if chars[i] != s.get_char(i) {
            return false;
        }
        i = i + 1;
    }
    proof {
        assert(chars@ =~= s@);
    }
    true
}

/// Looks a class up by its name given as characters, colons included.
pub fn class_from_chars(name: &Vec<char>) -> (r: Result<RegexClass, RegexError>)
    ensures
        match r {
            Ok(class) => class_of_name(name@) == Some(class),
            Err(e) => class_of_name(name@) is None && e == RegexError::InvalidCharacterClassName,
        },
{
    if chars_eq_str(name, ":alpha:") {
        Ok(RegexClass::Alpha)
    } else if chars_eq_str(name, ":digit:") {
        Ok(RegexClass::Digit)
    } else if chars_eq_str(name, ":alnum:") {
        Ok(RegexClass::Alnum)
    } else if chars_eq_str(name, ":lower:") {
        Ok(RegexClass::Lower)
    } else if chars_eq_str(name, ":upper:") {
        Ok(RegexClass::Upper)
    } else if chars_eq_str(name, ":space:") {
        Ok(RegexClass::Space)
    } else if chars_eq_str(name, ":punct:") {
        Ok(RegexClass::Punct)
    } else {
        Err(RegexError::InvalidCharacterClassName)
    }
}

} // verus!
