//! Apex Legends: the display regions and the weapon names.
use crate::games::Game;
use crate::roi::{self, RegionOfInterest, RegionOfInterestList, RegionOfInterestType, StreamResolution};
use vstd::prelude::*;

verus! {

/// Apex Legends.
pub struct Apex;

/// The Apex game.
pub fn new() -> Apex {
    Apex
}

/// `r` is a text region without result, measured at 1080p, named `name`
/// and placed at `x`, `y` with size `w` by `h`.
pub open spec fn is_region(r: RegionOfInterest, name: Seq<char>, x: i32, y: i32, w: i32, h: i32) -> bool {
    &&& r.name@ == name
    &&& r.x == x
    &&& r.y == y
    &&& r.width == w
    &&& r.height == h
    &&& r.roi_type == RegionOfInterestType::Text
    &&& r.result.is_none()
    &&& r.base_resolution == StreamResolution::HD1080p
}

/// The regions of the Apex display, in order: magazine, total ammo, the
/// two weapon names, and the compass.
pub open spec fn apex_regions(s: Seq<RegionOfInterest>) -> bool {
    &&& s.len() == 5
    &&& is_region(s[0], "loaded_mag_size"@, 1720, 960, 62, 40)
    &&& is_region(s[1], "total_ammo"@, 1720, 998, 62, 30)
    &&& is_region(s[2], "weapon_1_name"@, 1555, 1034, 110, 24)
    &&& is_region(s[3], "weapon_2_name"@, 1715, 1034, 110, 24)
    &&& is_region(s[4], "compass_number"@, 935, 90, 50, 32)
}

impl Game for Apex {
    /// The regions of the Apex display.
    fn regions(&self) -> (r: RegionOfInterestList)
        ensures
            apex_regions(r@),
    {
        let mut list = roi::new_region_list();
        let a = String::from_str("loaded_mag_size");
        let b = String::from_str("total_ammo");
        let c = String::from_str("weapon_1_name");
        let d = String::from_str("weapon_2_name");
        let e = String::from_str("compass_number");
        proof {
            reveal_strlit("loaded_mag_size");
            reveal_strlit("total_ammo");
            reveal_strlit("weapon_1_name");
            reveal_strlit("weapon_2_name");
            reveal_strlit("compass_number");
        }
        let ghost (na, nb, nc, nd, ne) = (a@, b@, c@, d@, e@);
        assert(na != nb && na != nc && na != nd && na != ne) by {
            assert(na.len() != nb.len() && na[0] != nc[0] && na.len() != nd.len() && na[0] != ne[0]);
        }
        assert(nb != nc && nb != nd && nb != ne) by {
            assert(nb[0] != nc[0] && nb[0] != nd[0] && nb[0] != ne[0]);
        }
        assert(nc != nd && nc != ne) by {
            assert(nc[7] != nd[7] && nc[0] != ne[0]);
        }
        assert(nd != ne) by {
            assert(nd[0] != ne[0]);
        }
        list.add_new_region(a, 1720, 960, 62, 40, StreamResolution::HD1080p);
        proof {
            assert(!roi::has_name(list@, nb));
        }
        list.add_new_region(b, 1720, 998, 62, 30, StreamResolution::HD1080p);
        proof {
            assert(!roi::has_name(list@, nc)) by {
                if roi::has_name(list@, nc) {
                    let i = choose|i: int| 0 <= i < list@.len() && #[trigger] list@[i].name@ == nc;
                }
            }
        }
        list.add_new_region(c, 1555, 1034, 110, 24, StreamResolution::HD1080p);
        proof {
            assert(!roi::has_name(list@, nd)) by {
                if roi::has_name(list@, nd) {
                    let i = choose|i: int| 0 <= i < list@.len() && #[trigger] list@[i].name@ == nd;
                }
            }
        }
        list.add_new_region(d, 1715, 1034, 110, 24, StreamResolution::HD1080p);
        proof {
            assert(!roi::has_name(list@, ne)) by {
                if roi::has_name(list@, ne) {
                    let i = choose|i: int| 0 <= i < list@.len() && #[trigger] list@[i].name@ == ne;
                }
            }
        }
        list.add_new_region(e, 935, 90, 50, 32, StreamResolution::HD1080p);
        list
    }

}

/// The weapons whose names appear on the display.
#[derive(Debug, Clone, Copy, PartialEq, Eq, Structural)]
pub enum Weapon {
    Spitfire,
    Mozambique,
    RE45,
    R301,
    Sentinel,
    TripleTake,
    Devotion,
    Longbow,
    LStar,
    Peacekeeper,
    Mastiff,
    EVA8,
    Volt,
    Bocek,
    Kraber,
    Rampage,
    Wingman,
    Hemlock,
    Prowler,
    Flatline,
    P2020,
    N3030,
    Car,
    G7Scout,
    Havoc,
}

/// The name shown for each weapon.
pub open spec fn weapon_name(w: Weapon) -> Seq<char> {
    match w {
        Weapon::Spitfire => "Spitfire"@,
        Weapon::Mozambique => "Mozambique"@,
        Weapon::RE45 => "RE-45"@,
        Weapon::R301 => "R-301"@,
        Weapon::Sentinel => "Sentinel"@,
        Weapon::TripleTake => "TripleTake"@,
        Weapon::Devotion => "Devotion"@,
        Weapon::Longbow => "Longbow"@,
        Weapon::LStar => "L-STAR"@,
        Weapon::Peacekeeper => "Peacekeeper"@,
        Weapon::Mastiff => "Mastiff"@,
        Weapon::EVA8 => "EVA-8"@,
        Weapon::Volt => "Volt"@,
        Weapon::Bocek => "Bocek"@,
        Weapon::Kraber => "Kraber"@,
        Weapon::Rampage => "Rampage"@,
        Weapon::Wingman => "Wingman"@,
        Weapon::Hemlock => "Hemlock"@,
        Weapon::Prowler => "Prowler"@,
        Weapon::Flatline => "Flatline"@,
        Weapon::P2020 => "P-2020"@,
        Weapon::N3030 => "30-30"@,
        Weapon::Car => "Car"@,
        Weapon::G7Scout => "G7 Scout"@,
        Weapon::Havoc => "Havoc"@,
    }
}

impl Weapon {
    /// The weapon's name as shown in game.
    pub fn to_string(&self) -> (r: String)
        ensures
            r@ == weapon_name(*self),
    {
        let s = match self {
            Weapon::Spitfire => "Spitfire",
            Weapon::Mozambique => "Mozambique",
            Weapon::RE45 => "RE-45",
            Weapon::R301 => "R-301",
            Weapon::Sentinel => "Sentinel",
            Weapon::TripleTake => "TripleTake",
            Weapon::Longbow => "Longbow",
            Weapon::LStar => "L-STAR",
            Weapon::Peacekeeper => "Peacekeeper",
            Weapon::Mastiff => "Mastiff",
            Weapon::EVA8 => "EVA-8",
            Weapon::Volt => "Volt",
            Weapon::Bocek => "Bocek",
            Weapon::Kraber => "Kraber",
            Weapon::Rampage => "Rampage",
            Weapon::Wingman => "Wingman",
            Weapon::Hemlock => "Hemlock",
            Weapon::Prowler => "Prowler",
            Weapon::Flatline => "Flatline",
            Weapon::P2020 => "P-2020",
            Weapon::N3030 => "30-30",
            Weapon::Car => "Car",
            Weapon::Devotion => "Devotion",
            Weapon::G7Scout => "G7 Scout",
            Weapon::Havoc => "Havoc",
        };
        String::from_str(s)
    }
}

} // verus!
