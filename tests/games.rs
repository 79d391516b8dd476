use stream_cv::games::apex::{self, Weapon};
use stream_cv::games::{self, Game, SupportedGames};

#[test]
fn apex_regions_layout() {
    let game = games::new(SupportedGames::Apex);
    let regions = game.regions();
    assert_eq!(regions.len(), 5);
    let mag = regions.get_value("loaded_mag_size".to_string()).unwrap();
    assert_eq!((mag.x, mag.y, mag.width, mag.height), (1720, 960, 62, 40));
    let compass = regions.get_value("compass_number".to_string()).unwrap();
    assert_eq!((compass.x, compass.y, compass.width, compass.height), (935, 90, 50, 32));
    let w2 = regions.get_value("weapon_2_name".to_string()).unwrap();
    assert_eq!((w2.x, w2.y, w2.width, w2.height), (1715, 1034, 110, 24));
    let names: Vec<String> = regions.iter().into_iter().map(|(n, _)| n).collect();
    assert_eq!(
        names,
        vec!["loaded_mag_size", "total_ammo", "weapon_1_name", "weapon_2_name", "compass_number"]
    );
    assert_eq!(apex::new().regions().len(), 5);
}

#[test]
fn weapon_names() {
    assert_eq!(Weapon::R301.to_string(), "R-301");
    assert_eq!(Weapon::RE45.to_string(), "RE-45");
    assert_eq!(Weapon::N3030.to_string(), "30-30");
    assert_eq!(Weapon::G7Scout.to_string(), "G7 Scout");
    assert_eq!(Weapon::LStar.to_string(), "L-STAR");
    assert_eq!(Weapon::Havoc.to_string(), "Havoc");
}
