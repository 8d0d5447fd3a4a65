//! Password character-class analysis.
//!
//! A password is scored from its length and the variety of character classes it
//! uses. This module decides the classes, the length in characters and the size of
//! the symbol pool the classes span; turning that into an entropy estimate in bits
//! and a bucketed score is floating-point work done by the caller.
use vstd::prelude::*;
use vstd::string::StrSliceExecFns;

verus! {

/// ASCII lowercase letter.
pub open spec fn is_lower(c: char) -> bool {
    'a' <= c <= 'z'
}

/// ASCII uppercase letter.
pub open spec fn is_upper(c: char) -> bool {
    'A' <= c <= 'Z'
}

/// ASCII digit.
pub open spec fn is_digit(c: char) -> bool {
    '0' <= c <= '9'
}

/// Any other ASCII character (punctuation, space, control).
pub open spec fn is_symbol(c: char) -> bool {
    (c as u32) < 128 && !is_lower(c) && !is_upper(c) && !is_digit(c)
}

/// Any non-ASCII character.
pub open spec fn is_other(c: char) -> bool {
    (c as u32) >= 128
}

/// The character classes a password uses, and its length in characters.
#[derive(Clone, Copy, Debug, PartialEq, Eq, Structural)]
pub struct PasswordClasses {
    /// Length in characters (Unicode scalar values).
    pub length: usize,
    /// Uses an ASCII lowercase letter.
    pub has_lower: bool,
    /// Uses an ASCII uppercase letter.
    pub has_upper: bool,
    /// Uses an ASCII digit.
    pub has_digit: bool,
    /// Uses another ASCII character.
    pub has_symbol: bool,
    /// Uses a non-ASCII character.
    pub has_other: bool,
}

/// Whether some character of `s` satisfies `p`.
pub open spec fn uses(s: Seq<char>, p: spec_fn(char) -> bool) -> bool {
    exists|i: int| 0 <= i < s.len() && p(#[trigger] s[i])
}

/// The classes a password uses.
pub open spec fn classes_of(s: Seq<char>) -> PasswordClasses {
    PasswordClasses {
        length: s.len() as usize,
        has_lower: uses(s, |c: char| is_lower(c)),
        has_upper: uses(s, |c: char| is_upper(c)),
        has_digit: uses(s, |c: char| is_digit(c)),
        has_symbol: uses(s, |c: char| is_symbol(c)),
        has_other: uses(s, |c: char| is_other(c)),
    }
}

/// The size of the symbol pool the classes span: 26 per letter case, 10 digits,
/// 33 other ASCII characters, and a conservative 100 for non-ASCII input.
pub open spec fn pool_of(c: PasswordClasses) -> int {
    (if c.has_lower {
        26int
    } else {
        0
    }) + (if c.has_upper {
        26int
    } else {
        0
    }) + (if c.has_digit {
        10int
    } else {
        0
    }) + (if c.has_symbol {
        33int
    } else {
        0
    }) + (if c.has_other {
        100int
    } else {
        0
    })
}

/// How many of the five classes are used.
pub open spec fn count_of(c: PasswordClasses) -> int {
    (if c.has_lower {
        1int
    } else {
        0
    }) + (if c.has_upper {
        1int
    } else {
        0
    }) + (if c.has_digit {
        1int
    } else {
        0
    }) + (if c.has_symbol {
        1int
    } else {
        0
    }) + (if c.has_other {
        1int
    } else {
        0
    })
}

/// The class count counts each used class once: it is 0 when no class is used,
/// at most 5, and turning on any one class (the others fixed) raises it by exactly
/// one; so a password with both a lowercase and a non-ASCII character uses at
/// least two classes.
pub proof fn lemma_class_count_counts_each_class(c: PasswordClasses, s: Seq<char>)
    ensures
        0 <= count_of(c) <= 5,
        count_of(
            PasswordClasses {
                has_lower: false,
                has_upper: false,
                has_digit: false,
                has_symbol: false,
                has_other: false,
                ..c
            },
        ) == 0,
        count_of(PasswordClasses { has_lower: true, ..c }) == count_of(PasswordClasses { has_lower: false, ..c }) + 1,
        count_of(PasswordClasses { has_upper: true, ..c }) == count_of(PasswordClasses { has_upper: false, ..c }) + 1,
        count_of(PasswordClasses { has_digit: true, ..c }) == count_of(PasswordClasses { has_digit: false, ..c }) + 1,
        count_of(PasswordClasses { has_symbol: true, ..c }) == count_of(PasswordClasses { has_symbol: false, ..c })
            + 1,
        count_of(PasswordClasses { has_other: true, ..c }) == count_of(PasswordClasses { has_other: false, ..c }) + 1,
        uses(s, |ch: char| is_lower(ch)) && uses(s, |ch: char| is_other(ch)) ==> count_of(classes_of(s)) >= 2,
{
}

/// The pool grows by each used class's alphabet: nothing when no class is used,
/// 26 for either letter case, 10 for digits, 33 for other ASCII characters and
/// 100 for non-ASCII input, each added once when that class is turned on.
pub proof fn lemma_pool_adds_each_class(c: PasswordClasses)
    ensures
        pool_of(
            PasswordClasses {
                has_lower: false,
                has_upper: false,
                has_digit: false,
                has_symbol: false,
                has_other: false,
                ..c
            },
        ) == 0,
        pool_of(PasswordClasses { has_lower: true, ..c }) == pool_of(PasswordClasses { has_lower: false, ..c }) + 26,
        pool_of(PasswordClasses { has_upper: true, ..c }) == pool_of(PasswordClasses { has_upper: false, ..c }) + 26,
        pool_of(PasswordClasses { has_digit: true, ..c }) == pool_of(PasswordClasses { has_digit: false, ..c }) + 10,
        pool_of(PasswordClasses { has_symbol: true, ..c }) == pool_of(PasswordClasses { has_symbol: false, ..c })
            + 33,
        pool_of(PasswordClasses { has_other: true, ..c }) == pool_of(PasswordClasses { has_other: false, ..c })
            + 100,
{
}

/// Classify every character of `password`.
pub fn classify_password(password: &str) -> (r: PasswordClasses)
    ensures
        r == classes_of(password@),
{
    let length = password.unicode_len();
    let mut r = PasswordClasses {
        length,
        has_lower: false,
        has_upper: false,
        has_digit: false,
        has_symbol: false,
        has_other: false,
    };
    let mut i: usize = 0;
    while i < length
        invariant
            length == password@.len(),
            i <= length,
            r.length == length,
            r.has_lower == uses(password@.subrange(0, i as int), |c: char| is_lower(c)),
            r.has_upper == uses(password@.subrange(0, i as int), |c: char| is_upper(c)),
            r.has_digit == uses(password@.subrange(0, i as int), |c: char| is_digit(c)),
            r.has_symbol == uses(password@.subrange(0, i as int), |c: char| is_symbol(c)),
            r.has_other == uses(password@.subrange(0, i as int), |c: char| is_other(c)),
        decreases length - i,
    {
        let c = password.get_char(i);
        if 'a' <= c && c <= 'z' {
            r.has_lower = true;
        } else if 'A' <= c && c <= 'Z' {
            r.has_upper = true;
        } else if '0' <= c && c <= '9' {
            r.has_digit = true;
        } else if (c as u32) < 128 {
            r.has_symbol = true;
        } else {
            r.has_other = true;
        }
        proof {
            let before = password@.subrange(0, i as int);
            let after = password@.subrange(0, i + 1);
            assert(after =~= before.push(c));
            assert forall|p: spec_fn(char) -> bool| #[trigger] uses(after, p) == (uses(before, p) || p(c)) by {
                if uses(after, p) {
                    let k = choose|k: int| 0 <= k < after.len() && p(#[trigger] after[k]);
                    if k < before.len() {
                        assert(before[k] == after[k]);
                    }
                }
                if uses(before, p) {
                    let k = choose|k: int| 0 <= k < before.len() && p(#[trigger] before[k]);
                    assert(after[k] == before[k]);
                }
                if p(c) {
                    assert(after[i as int] == c);
                }
            }
        }
        i = i + 1;
    }
    assert(password@.subrange(0, length as int) =~= password@);
    r
}

impl PasswordClasses {
    /// The size of the symbol pool these classes span.
    pub fn pool(&self) -> (r: u32)
        ensures
            r == pool_of(*self),
    {
        let mut pool: u32 = 0;
        if self.has_lower {
            pool = pool + 26;
        }
        if self.has_upper {
            pool = pool + 26;
        }
        if self.has_digit {
            pool = pool + 10;
        }
        if self.has_symbol {
            pool = pool + 33;
        }
        if self.has_other {
            pool = pool + 100;
        }
        pool
    }

    /// How many of the five classes are used.
    pub fn class_count(&self) -> (r: u32)
        ensures
            r == count_of(*self),
    {
        let mut n: u32 = 0;
        if self.has_lower {
            n = n + 1;
        }
        if self.has_upper {
            n = n + 1;
        }
        if self.has_digit {
            n = n + 1;
        }
        if self.has_symbol {
            n = n + 1;
        }
        if self.has_other {
            n = n + 1;
        }
        n
    }
}

} // verus!
