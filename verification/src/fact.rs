//! The containment fact: one observed "place P lies inside boundary B"
//! statement, together with its identity and ordering rules and the
//! rendering of an object's OpenStreetMap URL.

use vstd::prelude::*;
use vstd::string::StringExecFns;

verus! {

/// The character of a single decimal digit.
pub open spec fn digit_char(d: nat) -> char {
    if d == 0 {
        '0'
    } else if d == 1 {
        '1'
    } else if d == 2 {
        '2'
    } else if d == 3 {
        '3'
    } else if d == 4 {
        '4'
    } else if d == 5 {
        '5'
    } else if d == 6 {
        '6'
    } else if d == 7 {
        '7'
    } else if d == 8 {
        '8'
    } else {
        '9'
    }
}

/// The decimal rendering of a number, most significant digit first.
pub open spec fn decimal_of(n: nat) -> Seq<char>
    decreases n,
{
    if n < 10 {
        seq![digit_char(n)]
    } else {
        decimal_of(n / 10).push(digit_char(n % 10))
    }
}

/// The path word of an object kind tag.
pub open spec fn kind_word(t: char) -> Seq<char> {
    if t == 'n' {
        "node"@
    } else if t == 'w' {
        "way"@
    } else {
        "relation"@
    }
}

/// The OpenStreetMap URL of an object, as a character sequence.
pub open spec fn url_of(t: char, id: u64) -> Seq<char> {
    "https://www.openstreetmap.org/"@ + kind_word(t) + "/"@ + decimal_of(id as nat)
}

/// The one-character string of a decimal digit.
fn digit_str(d: u64) -> (r: &'static str)
    requires
        d < 10,
    ensures
        r@ == seq![digit_char(d as nat)],
{
    match d {
        0 => {
            proof {
                reveal_strlit("0");
                assert("0"@ =~= seq![digit_char(0)]);
            }
            "0"
        },
        1 => {
            proof {
                reveal_strlit("1");
                assert("1"@ =~= seq![digit_char(1)]);
            }
            "1"
        },
        2 => {
            proof {
                reveal_strlit("2");
                assert("2"@ =~= seq![digit_char(2)]);
            }
            "2"
        },
        3 => {
            proof {
                reveal_strlit("3");
                assert("3"@ =~= seq![digit_char(3)]);
            }
            "3"
        },
        4 => {
            proof {
                reveal_strlit("4");
                assert("4"@ =~= seq![digit_char(4)]);
            }
            "4"
        },
        5 => {
            proof {
                reveal_strlit("5");
                assert("5"@ =~= seq![digit_char(5)]);
            }
            "5"
        },
        6 => {
            proof {
                reveal_strlit("6");
                assert("6"@ =~= seq![digit_char(6)]);
            }
            "6"
        },
        7 => {
            proof {
                reveal_strlit("7");
                assert("7"@ =~= seq![digit_char(7)]);
            }
            "7"
        },
        8 => {
            proof {
                reveal_strlit("8");
                assert("8"@ =~= seq![digit_char(8)]);
            }
            "8"
        },
        _ => {
            proof {
                reveal_strlit("9");
                assert(d == 9);
                assert("9"@ =~= seq![digit_char(9)]);
            }
            "9"
        },
    }
}

/// Appends the decimal rendering of `n`.
fn append_decimal(s: &mut String, n: u64)
    ensures
        final(s)@ == old(s)@ + decimal_of(n as nat),
    decreases n,
{
    let ghost pre = s@;
    if n >= 10 {
        append_decimal(s, n / 10);
    }
    let d = digit_str(n % 10);
    s.append(d);
    proof {
        if n < 10 {
            assert(decimal_of(n as nat) =~= seq![digit_char(n as nat)]);
            assert(s@ =~= pre + decimal_of(n as nat));
        } else {
            assert(s@ =~= pre + decimal_of(n as nat));
        }
    }
}

/// Renders the OpenStreetMap URL of an object from its kind tag
/// ('n' for a node, 'w' for a way, 'r' for a relation) and identifier.
pub fn url(t: char, id: u64) -> (r: String)
    requires
        t == 'n' || t == 'w' || t == 'r',
    ensures
        r@ == url_of(t, id),
{
    let mut s = String::new();
    s.append("https://www.openstreetmap.org/");
    if t == 'n' {
        s.append("node");
    } else if t == 'w' {
        s.append("way");
    } else {
        s.append("relation");
    }
    s.append("/");
    append_decimal(&mut s, id);
    proof {
        assert(s@ =~= url_of(t, id));
    }
    s
}

/// One observed containment relation. Coordinates are held in fixed-point
/// nanodegrees so that the search core stays in integer arithmetic; the
/// surrounding program converts when it reads the input table.
pub struct Fact {
    /// Object kind of the place: 'n' (node), 'w' (way) or 'r' (relation).
    pub place_kind: char,
    /// Identifier of the place, unique within its kind.
    pub place_id: u64,
    /// Name of the place.
    pub place_name: String,
    /// Category tag of the place (city, town, village, ...).
    pub place_category: String,
    /// Latitude of the place in nanodegrees.
    pub place_lat: i64,
    /// Longitude of the place in nanodegrees.
    pub place_lon: i64,
    /// Object kind of the boundary: 'n', 'w' or 'r'.
    pub boundary_kind: char,
    /// Identifier of the boundary, unique within its kind.
    pub boundary_id: u64,
    /// Name of the boundary.
    pub boundary_name: String,
    /// Administrative level of the boundary.
    pub boundary_admin_level: String,
}

impl Fact {
    /// Two facts are the same observation iff both identifiers match;
    /// names play no part in identity.
    pub open spec fn same_identity_spec(self, other: Fact) -> bool {
        self.place_id == other.place_id && self.boundary_id == other.boundary_id
    }

    /// Facts are ordered primarily by place identifier, tie-broken by
    /// boundary identifier.
    pub open spec fn identity_le_spec(self, other: Fact) -> bool {
        ||| self.place_id < other.place_id
        ||| (self.place_id == other.place_id && self.boundary_id <= other.boundary_id)
    }

    /// A fact whose place bears the same name as its own boundary is
    /// self-referential noise and is excluded from the fact store.
    pub open spec fn self_named(self) -> bool {
        self.place_name@ == self.boundary_name@
    }

    pub fn same_identity(&self, other: &Fact) -> (r: bool)
        ensures
            r == self.same_identity_spec(*other),
    {
        self.place_id == other.place_id && self.boundary_id == other.boundary_id
    }

    pub fn identity_le(&self, other: &Fact) -> (r: bool)
        ensures
            r == self.identity_le_spec(*other),
    {
        self.place_id < other.place_id
            || (self.place_id == other.place_id && self.boundary_id <= other.boundary_id)
    }

    pub fn is_self_named(&self) -> (r: bool)
        ensures
            r == self.self_named(),
    {
        self.place_name == self.boundary_name
    }

    /// The OpenStreetMap URL of the place.
    pub fn place_url(&self) -> (r: String)
        requires
            self.place_kind == 'n' || self.place_kind == 'w' || self.place_kind == 'r',
        ensures
            r@ == url_of(self.place_kind, self.place_id),
    {
        url(self.place_kind, self.place_id)
    }

    /// The OpenStreetMap URL of the boundary.
    pub fn boundary_url(&self) -> (r: String)
        requires
            self.boundary_kind == 'n' || self.boundary_kind == 'w' || self.boundary_kind == 'r',
        ensures
            r@ == url_of(self.boundary_kind, self.boundary_id),
    {
        url(self.boundary_kind, self.boundary_id)
    }
}

impl Clone for Fact {
    fn clone(&self) -> (r: Fact)
        ensures
            r == *self,
    {
        Fact {
            place_kind: self.place_kind,
            place_id: self.place_id,
            place_name: self.place_name.clone(),
            place_category: self.place_category.clone(),
            place_lat: self.place_lat,
            place_lon: self.place_lon,
            boundary_kind: self.boundary_kind,
            boundary_id: self.boundary_id,
            boundary_name: self.boundary_name.clone(),
            boundary_admin_level: self.boundary_admin_level.clone(),
        }
    }
}

} // verus!
