use stream_cv::roi::{new_region, new_region_list, Rect, RegionOfInterestType, StreamResolution};

#[test]
fn new_region_has_no_result() {
    let r = new_region("ammo".to_string(), 1, 2, 3, 4, StreamResolution::HD720p);
    assert_eq!(r.name, "ammo");
    assert_eq!((r.x, r.y, r.width, r.height), (1, 2, 3, 4));
    assert_eq!(r.roi_type, RegionOfInterestType::Text);
    assert_eq!(r.result, None);
    assert_eq!(r.base_resolution, StreamResolution::HD720p);
}

#[test]
fn set_result_records_text() {
    let mut r = new_region("a".to_string(), 0, 0, 1, 1, StreamResolution::HD1080p);
    r.set_result("42".to_string());
    assert_eq!(r.result, Some("42".to_string()));
}

#[test]
fn add_region_replaces_same_name() {
    let mut list = new_region_list();
    assert!(list.is_empty());
    list.add_new_region("a".to_string(), 1, 1, 1, 1, StreamResolution::HD1080p);
    list.add_new_region("b".to_string(), 2, 2, 2, 2, StreamResolution::HD1080p);
    list.add_new_region("a".to_string(), 9, 9, 9, 9, StreamResolution::HD720p);
    assert_eq!(list.len(), 2);
    assert!(!list.is_empty());
    let a = list.get_value("a".to_string()).unwrap();
    assert_eq!(a.x, 9);
    assert_eq!(a.base_resolution, StreamResolution::HD720p);
    assert!(list.get_value("c".to_string()).is_none());
    let names: Vec<String> = list.iter().into_iter().map(|(n, _)| n).collect();
    assert_eq!(names, vec!["a".to_string(), "b".to_string()]);
}

#[test]
fn get_log_joins_names_and_results() {
    let mut list = new_region_list();
    let mut a = new_region("ammo".to_string(), 0, 0, 1, 1, StreamResolution::HD1080p);
    a.set_result("30".to_string());
    let mut b = new_region("gun".to_string(), 0, 0, 1, 1, StreamResolution::HD1080p);
    b.set_result("R-301".to_string());
    list.add_region(a);
    list.add_region(b);
    assert_eq!(list.get_log(), "ammo\t30gun\tR-301");
    assert_eq!(new_region_list().get_log(), "");
}

#[test]
fn vec_of_rects_in_order() {
    let mut list = new_region_list();
    list.add_new_region("a".to_string(), 1, 2, 3, 4, StreamResolution::HD1080p);
    list.add_new_region("b".to_string(), 5, 6, 7, 8, StreamResolution::HD1080p);
    assert_eq!(
        list.vec_of_rects(),
        vec![
            Rect { x: 1, y: 2, width: 3, height: 4 },
            Rect { x: 5, y: 6, width: 7, height: 8 }
        ]
    );
}

#[test]
fn clone_and_duplicate_keep_regions() {
    let mut list = new_region_list();
    list.add_new_region("a".to_string(), 1, 2, 3, 4, StreamResolution::HD1080p);
    let c = list.clone();
    let d = list.duplicate();
    assert_eq!(c.len(), 1);
    assert_eq!(d.get_value("a".to_string()).unwrap().height, 4);
}
