use vstd::prelude::*;

verus! {

/// The ordered three-tier scale shared by task difficulty and user skill:
/// `C` is the lowest tier, `A` the highest.
///
/// One shared enumeration is kept on purpose: calibration compares a user's
/// tier with the difficulty of the tasks they completed.
#[derive(Clone, Copy, Debug, PartialEq, Eq, Structural)]
pub enum Class {
    C,
    B,
    A,
}

impl Class {
    /// The small-integer encoding under which the store persists a tier.
    pub open spec fn spec_code(self) -> int {
        match self {
            Class::C => 0,
            Class::B => 1,
            Class::A => 2,
        }
    }

    /// The tier a stored integer decodes to; anything out of range falls
    /// back to the lowest tier.
    pub open spec fn spec_from_code(code: int) -> Class {
        if code == 1 {
            Class::B
        } else if code == 2 {
            Class::A
        } else {
            Class::C
        }
    }

    pub fn code(self) -> (c: i16)
        ensures
            c == self.spec_code(),
    {
        match self {
            Class::C => 0,
            Class::B => 1,
            Class::A => 2,
        }
    }

    pub fn from_code(code: i16) -> (c: Class)
        ensures
            c == Class::spec_from_code(code as int),
    {
        match code {
            1 => Class::B,
            2 => Class::A,
            _ => Class::C,
        }
    }

    pub open spec fn spec_label(self) -> Seq<char> {
        match self {
            Class::C => seq!['C'],
            Class::B => seq!['B'],
            Class::A => seq!['A'],
        }
    }

    /// The one-letter name of the tier.
    pub fn label(self) -> (s: String)
        ensures
            s@ == self.spec_label(),
    {
        match self {
            Class::C => {
                let s = "C".to_owned();
                proof {
                    reveal_strlit("C");
                    assert(s@ =~= seq!['C']);
                }
                s
            },
            Class::B => {
                let s = "B".to_owned();
                proof {
                    reveal_strlit("B");
                    assert(s@ =~= seq!['B']);
                }
                s
            },
            Class::A => {
                let s = "A".to_owned();
                proof {
                    reveal_strlit("A");
                    assert(s@ =~= seq!['A']);
                }
                s
            },
        }
    }

    pub open spec fn spec_from_label(s: Seq<char>) -> Option<Class> {
        if s == seq!['C'] {
            Some(Class::C)
        } else if s == seq!['B'] {
            Some(Class::B)
        } else if s == seq!['A'] {
            Some(Class::A)
        } else {
            None
        }
    }

    /// Decodes a one-letter tier name; any other text is rejected.
    pub fn from_label(s: &String) -> (c: Option<Class>)
        ensures
            c == Class::spec_from_label(s@),
    {
        let c_label = "C".to_owned();
        let b_label = "B".to_owned();
        let a_label = "A".to_owned();
        proof {
            reveal_strlit("C");
            reveal_strlit("B");
            reveal_strlit("A");
            assert(c_label@ =~= seq!['C']);
            assert(b_label@ =~= seq!['B']);
            assert(a_label@ =~= seq!['A']);
        }
        if *s == c_label {
            Some(Class::C)
        } else if *s == b_label {
            Some(Class::B)
        } else if *s == a_label {
            Some(Class::A)
        } else {
            None
        }
    }
}

} // verus!
