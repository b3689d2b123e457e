use vstd::prelude::*;

verus! {

/// The category of a map.
#[derive(Debug, PartialEq, Eq, Structural, PartialOrd, Ord, Clone, Copy, Hash)]
pub enum Mode {
    TD,
    DM,
    Chaser,
    BR,
    Captain,
    Siege,
}

/// The fixed cycle of modes: TD, DM, Chaser, BR, Captain, Siege, then TD again.
pub open spec fn next_mode(m: Mode) -> Mode {
    match m {
        Mode::TD => Mode::DM,
        Mode::DM => Mode::Chaser,
        Mode::Chaser => Mode::BR,
        Mode::BR => Mode::Captain,
        Mode::Captain => Mode::Siege,
        Mode::Siege => Mode::TD,
    }
}

/// The cross-category discount between two modes, in thousandths.
///
/// Symmetric; any pair involving Siege or Chaser (other than with itself) is
/// deeply discounted because those modes have very few maps.
pub open spec fn discount_of(a: Mode, b: Mode) -> u32 {
    if a == b {
        1000
    } else if a == Mode::Siege || b == Mode::Siege || a == Mode::Chaser || b == Mode::Chaser {
        100
    } else if (a == Mode::TD && b == Mode::DM) || (a == Mode::DM && b == Mode::TD) {
        600
    } else if a == Mode::TD || b == Mode::TD {
        // TD with BR or Captain
        500
    } else if (a == Mode::DM && b == Mode::BR) || (a == Mode::BR && b == Mode::DM) {
        900
    } else if a == Mode::DM || b == Mode::DM {
        // DM with Captain
        800
    } else {
        // BR with Captain
        700
    }
}

/// The display name of a mode.
pub open spec fn mode_name(m: Mode) -> Seq<char> {
    match m {
        Mode::TD => "TD"@,
        Mode::DM => "DM"@,
        Mode::Chaser => "Chaser"@,
        Mode::BR => "BR"@,
        Mode::Captain => "Captain"@,
        Mode::Siege => "Siege"@,
    }
}

/// The mode whose lower-case name is `s`, if any.
pub open spec fn mode_of_lowercase(s: Seq<char>) -> Option<Mode> {
    if s == "td"@ {
        Some(Mode::TD)
    } else if s == "dm"@ {
        Some(Mode::DM)
    } else if s == "chaser"@ {
        Some(Mode::Chaser)
    } else if s == "br"@ {
        Some(Mode::BR)
    } else if s == "captain"@ {
        Some(Mode::Captain)
    } else if s == "siege"@ {
        Some(Mode::Siege)
    } else {
        None
    }
}

/// What `str::to_lowercase` makes of a string.
pub uninterp spec fn lowercase_of(s: Seq<char>) -> Seq<char>;

/// Relies on `str::to_lowercase`: the result is a function of the characters alone.
#[verifier::external_body]
fn to_lowercase(s: &str) -> (r: String)
    ensures
        r@ == lowercase_of(s@),
{
    s.to_lowercase()
}

/// Character-wise equality of two strings.
pub fn str_equal(a: &str, b: &str) -> (r: bool)
    ensures
        r == (a@ == b@),
{
    let n = a.unicode_len();
    if n != b.unicode_len() {
        return false;
    }
    let mut i: usize = 0;
    while i < n
        invariant
            n == a@.len(),
            n == b@.len(),
            i <= n,
            a@.subrange(0, i as int) == b@.subrange(0, i as int),
        decreases n - i,
    {
        if a.get_char(i) != b.get_char(i) {
            assert(a@[i as int] != b@[i as int]);
            return false;
        }
        assert(a@.subrange(0, i + 1) == a@.subrange(0, i as int).push(a@[i as int]));
        assert(b@.subrange(0, i + 1) == b@.subrange(0, i as int).push(b@[i as int]));
        i = i + 1;
    }
    assert(a@ == a@.subrange(0, n as int));
    assert(b@ == b@.subrange(0, n as int));
    true
}

/// A mode name that matches none of the known modes.
#[derive(Debug)]
pub struct UnknownMode(pub String);

impl Mode {
    /// All modes, in their declared order.
    pub fn ordered() -> (r: [Mode; 6])
        ensures
            r@ == seq![Mode::TD, Mode::DM, Mode::Chaser, Mode::BR, Mode::Captain, Mode::Siege],
    {
        let r = [Mode::TD, Mode::DM, Mode::Chaser, Mode::BR, Mode::Captain, Mode::Siege];
        assert(r@ =~= seq![Mode::TD, Mode::DM, Mode::Chaser, Mode::BR, Mode::Captain, Mode::Siege]);
        r
    }

    /// The successor of this mode in the fixed rotation.
    pub fn next(&self) -> (r: Mode)
        ensures
            r == next_mode(*self),
    {
        match self {
            Mode::TD => Mode::DM,
            Mode::DM => Mode::Chaser,
            Mode::Chaser => Mode::BR,
            Mode::BR => Mode::Captain,
            Mode::Captain => Mode::Siege,
            Mode::Siege => Mode::TD,
        }
    }

    /// The cross-category discount between this mode and `o`, in thousandths.
    pub fn mode_discount(self, o: Mode) -> (r: u32)
        ensures
            r == discount_of(self, o),
            0 < r <= 1000,
    {
        match (self, o) {
            (Mode::TD, Mode::TD) | (Mode::DM, Mode::DM) | (Mode::Chaser, Mode::Chaser)
            | (Mode::BR, Mode::BR) | (Mode::Captain, Mode::Captain)
            | (Mode::Siege, Mode::Siege) => 1000,
            (Mode::Siege, _) | (_, Mode::Siege) | (Mode::Chaser, _) | (_, Mode::Chaser) => 100,
            (Mode::TD, Mode::DM) | (Mode::DM, Mode::TD) => 600,
            (Mode::TD, _) | (_, Mode::TD) => 500,
            (Mode::DM, Mode::BR) | (Mode::BR, Mode::DM) => 900,
            (Mode::DM, _) | (_, Mode::DM) => 800,
            _ => 700,
        }
    }

    /// The display name of this mode.
    pub fn name(&self) -> (r: &'static str)
        ensures
            r@ == mode_name(*self),
    {
        match self {
            Mode::TD => "TD",
            Mode::DM => "DM",
            Mode::Chaser => "Chaser",
            Mode::BR => "BR",
            Mode::Captain => "Captain",
            Mode::Siege => "Siege",
        }
    }

    /// The mode named by an already lower-cased string.
    pub fn from_lowercase(lc: &str) -> (r: Option<Mode>)
        ensures
            r == mode_of_lowercase(lc@),
    {
        if str_equal(lc, "td") {
            Some(Mode::TD)
        } else if str_equal(lc, "dm") {
            Some(Mode::DM)
        } else if str_equal(lc, "chaser") {
            Some(Mode::Chaser)
        } else if str_equal(lc, "br") {
            Some(Mode::BR)
        } else if str_equal(lc, "captain") {
            Some(Mode::Captain)
        } else if str_equal(lc, "siege") {
            Some(Mode::Siege)
        } else {
            None
        }
    }

    /// The mode named by `s`, compared without regard to case.
    pub fn from_name(s: &str) -> (r: Result<Mode, UnknownMode>)
        ensures
            mode_of_lowercase(lowercase_of(s@)) matches Some(m) ==> r == Ok::<Mode, UnknownMode>(m),
            mode_of_lowercase(lowercase_of(s@)) is None ==> (r matches Err(e) && e.0@ == s@),
    {
        let lc = to_lowercase(s);
        match Mode::from_lowercase(lc.as_str()) {
            Some(m) => Ok(m),
            None => Err(UnknownMode(String::from_str(s))),
        }
    }
}

} // verus!
