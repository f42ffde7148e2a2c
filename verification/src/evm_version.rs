//! The enumerated target-version tag and its fixed external spellings.

use vstd::prelude::*;

use crate::text::str_eq;

verus! {

/// A target platform version a compilation can aim at.
#[derive(Clone, Copy, PartialEq, Eq, Structural, Debug)]
pub enum EvmVersion {
    Homestead,
    TangerineWhistle,
    SpuriousDragon,
    Byzantium,
    Constantinople,
    Petersburg,
    Istanbul,
    Berlin,
    London,
    Paris,
    Shanghai,
    Cancun,
    Prague,
}

/// The fixed external spelling of each version.
pub open spec fn tag_view(v: EvmVersion) -> Seq<char> {
    match v {
        EvmVersion::Homestead => "homestead"@,
        EvmVersion::TangerineWhistle => "tangerineWhistle"@,
        EvmVersion::SpuriousDragon => "spuriousDragon"@,
        EvmVersion::Byzantium => "byzantium"@,
        EvmVersion::Constantinople => "constantinople"@,
        EvmVersion::Petersburg => "petersburg"@,
        EvmVersion::Istanbul => "istanbul"@,
        EvmVersion::Berlin => "berlin"@,
        EvmVersion::London => "london"@,
        EvmVersion::Paris => "paris"@,
        EvmVersion::Shanghai => "shanghai"@,
        EvmVersion::Cancun => "cancun"@,
        EvmVersion::Prague => "prague"@,
    }
}

/// Which version a piece of text spells, if any.
pub open spec fn version_of_tag(s: Seq<char>) -> Option<EvmVersion> {
    if s == "homestead"@ {
        Some(EvmVersion::Homestead)
    } else if s == "tangerineWhistle"@ {
        Some(EvmVersion::TangerineWhistle)
    } else if s == "spuriousDragon"@ {
        Some(EvmVersion::SpuriousDragon)
    } else if s == "byzantium"@ {
        Some(EvmVersion::Byzantium)
    } else if s == "constantinople"@ {
        Some(EvmVersion::Constantinople)
    } else if s == "petersburg"@ {
        Some(EvmVersion::Petersburg)
    } else if s == "istanbul"@ {
        Some(EvmVersion::Istanbul)
    } else if s == "berlin"@ {
        Some(EvmVersion::Berlin)
    } else if s == "london"@ {
        Some(EvmVersion::London)
    } else if s == "paris"@ {
        Some(EvmVersion::Paris)
    } else if s == "shanghai"@ {
        Some(EvmVersion::Shanghai)
    } else if s == "cancun"@ {
        Some(EvmVersion::Cancun)
    } else if s == "prague"@ {
        Some(EvmVersion::Prague)
    } else {
        None
    }
}

impl EvmVersion {
    /// The version's external spelling.
    pub fn tag(&self) -> (r: String)
        ensures
            r@ == tag_view(*self),
    {
        match self {
            EvmVersion::Homestead => "homestead".to_owned(),
            EvmVersion::TangerineWhistle => "tangerineWhistle".to_owned(),
            EvmVersion::SpuriousDragon => "spuriousDragon".to_owned(),
            EvmVersion::Byzantium => "byzantium".to_owned(),
            EvmVersion::Constantinople => "constantinople".to_owned(),
            EvmVersion::Petersburg => "petersburg".to_owned(),
            EvmVersion::Istanbul => "istanbul".to_owned(),
            EvmVersion::Berlin => "berlin".to_owned(),
            EvmVersion::London => "london".to_owned(),
            EvmVersion::Paris => "paris".to_owned(),
            EvmVersion::Shanghai => "shanghai".to_owned(),
            EvmVersion::Cancun => "cancun".to_owned(),
            EvmVersion::Prague => "prague".to_owned(),
        }
    }

    /// Reads a version from its external spelling.
    pub fn from_tag(s: &str) -> (r: Option<EvmVersion>)
        ensures
            r == version_of_tag(s@),
    {
        if str_eq(s, "homestead") {
            Some(EvmVersion::Homestead)
        } else if str_eq(s, "tangerineWhistle") {
            Some(EvmVersion::TangerineWhistle)
        } else if str_eq(s, "spuriousDragon") {
            Some(EvmVersion::SpuriousDragon)
        } else if str_eq(s, "byzantium") {
            Some(EvmVersion::Byzantium)
        } else if str_eq(s, "constantinople") {
            Some(EvmVersion::Constantinople)
        } else if str_eq(s, "petersburg") {
            Some(EvmVersion::Petersburg)
        } else if str_eq(s, "istanbul") {
            Some(EvmVersion::Istanbul)
        } else if str_eq(s, "berlin") {
            Some(EvmVersion::Berlin)
        } else if str_eq(s, "london") {
            Some(EvmVersion::London)
        } else if str_eq(s, "paris") {
            Some(EvmVersion::Paris)
        } else if str_eq(s, "shanghai") {
            Some(EvmVersion::Shanghai)
        } else if str_eq(s, "cancun") {
            Some(EvmVersion::Cancun)
        } else if str_eq(s, "prague") {
            Some(EvmVersion::Prague)
        } else {
            None
        }
    }
}

/// Every version's spelling names that version back.
pub proof fn lemma_tag_round_trip(v: EvmVersion)
    ensures
        version_of_tag(tag_view(v)) == Some(v),
{
    reveal_strlit("homestead");
    reveal_strlit("tangerineWhistle");
    reveal_strlit("spuriousDragon");
    reveal_strlit("byzantium");
    reveal_strlit("constantinople");
    reveal_strlit("petersburg");
    reveal_strlit("istanbul");
    reveal_strlit("berlin");
    reveal_strlit("london");
    reveal_strlit("paris");
    reveal_strlit("shanghai");
    reveal_strlit("cancun");
    reveal_strlit("prague");
    assert("homestead"@.len() == 9);
    assert("tangerineWhistle"@.len() == 16);
    assert("spuriousDragon"@.len() == 14);
    assert("byzantium"@.len() == 9);
    assert("constantinople"@.len() == 14);
    assert("petersburg"@.len() == 10);
    assert("istanbul"@.len() == 8);
    assert("berlin"@.len() == 6);
    assert("london"@.len() == 6);
    assert("paris"@.len() == 5);
    assert("shanghai"@.len() == 8);
    assert("cancun"@.len() == 6);
    assert("prague"@.len() == 6);
    assert("homestead"@ != "byzantium"@) by {
        assert("homestead"@[0] != "byzantium"@[0]);
    }
    assert("istanbul"@ != "shanghai"@) by {
        assert("istanbul"@[0] != "shanghai"@[0]);
    }
    assert("constantinople"@ != "spuriousDragon"@) by {
        assert("constantinople"@[0] != "spuriousDragon"@[0]);
    }
    assert("berlin"@ != "london"@) by {
        assert("berlin"@[0] != "london"@[0]);
    }
    assert("berlin"@ != "cancun"@) by {
        assert("berlin"@[0] != "cancun"@[0]);
    }
    assert("berlin"@ != "prague"@) by {
        assert("berlin"@[0] != "prague"@[0]);
    }
    assert("london"@ != "cancun"@) by {
        assert("london"@[0] != "cancun"@[0]);
    }
    assert("london"@ != "prague"@) by {
        assert("london"@[0] != "prague"@[0]);
    }
    assert("cancun"@ != "prague"@) by {
        assert("cancun"@[0] != "prague"@[0]);
    }
    match v {
        EvmVersion::Homestead => assert(version_of_tag("homestead"@) == Some(v)),
        EvmVersion::TangerineWhistle => assert(version_of_tag("tangerineWhistle"@) == Some(v)),
        EvmVersion::SpuriousDragon => assert(version_of_tag("spuriousDragon"@) == Some(v)),
        EvmVersion::Byzantium => assert(version_of_tag("byzantium"@) == Some(v)),
        EvmVersion::Constantinople => assert(version_of_tag("constantinople"@) == Some(v)),
        EvmVersion::Petersburg => assert(version_of_tag("petersburg"@) == Some(v)),
        EvmVersion::Istanbul => assert(version_of_tag("istanbul"@) == Some(v)),
        EvmVersion::Berlin => assert(version_of_tag("berlin"@) == Some(v)),
        EvmVersion::London => assert(version_of_tag("london"@) == Some(v)),
        EvmVersion::Paris => assert(version_of_tag("paris"@) == Some(v)),
        EvmVersion::Shanghai => assert(version_of_tag("shanghai"@) == Some(v)),
        EvmVersion::Cancun => assert(version_of_tag("cancun"@) == Some(v)),
        EvmVersion::Prague => assert(version_of_tag("prague"@) == Some(v)),
    }
}

} // verus!
