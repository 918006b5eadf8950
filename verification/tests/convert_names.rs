use wiliplayerconvert::convert;

#[test]
fn candidate_names_count_up_from_the_plain_name() {
    assert_eq!(convert::candidate_name("clip", 0), "clip.fwmv");
    assert_eq!(convert::candidate_name("clip", 1), "clip_1.fwmv");
    assert_eq!(convert::candidate_name("clip", 12), "clip_12.fwmv");
    assert_eq!(convert::candidate_name("a_1", 10), "a_1_10.fwmv");
}

#[test]
fn output_name_skips_taken_names() {
    let taken = ["clip.fwmv", "clip_1.fwmv", "other.fwmv"];
    let on_disk = |n: &str| taken.contains(&n);
    assert_eq!(convert::output_name("clip", &on_disk).unwrap(), "clip_2.fwmv");
    assert_eq!(convert::output_name("other", &on_disk).unwrap(), "other_1.fwmv");
    assert_eq!(convert::output_name("new", &on_disk).unwrap(), "new.fwmv");
    assert_eq!(convert::output_name("x", &|_: &str| false).unwrap(), "x.fwmv");
}

#[test]
fn output_name_asks_about_each_candidate_in_order() {
    let asked = std::cell::RefCell::new(Vec::new());
    let on_disk = |n: &str| {
        asked.borrow_mut().push(n.to_string());
        n != "v_3.fwmv"
    };
    assert_eq!(convert::output_name("v", &on_disk).unwrap(), "v_3.fwmv");
    assert_eq!(*asked.borrow(), vec!["v.fwmv", "v_1.fwmv", "v_2.fwmv", "v_3.fwmv"]);
}

#[test]
fn output_name_follows_what_the_disk_reports_about_case() {
    // a case-insensitive file system reports CLIP.fwmv as clip.fwmv
    let case_insensitive = |n: &str| n.eq_ignore_ascii_case("CLIP.fwmv");
    assert_eq!(convert::output_name("clip", &case_insensitive).unwrap(), "clip_1.fwmv");
    let case_sensitive = |n: &str| n == "CLIP.fwmv";
    assert_eq!(convert::output_name("clip", &case_sensitive).unwrap(), "clip.fwmv");
}

#[test]
fn batch_names_never_collide() {
    let stems = vec!["sample".to_string(), "sample".to_string(), "b".to_string(), "sample".to_string()];
    let existing = ["b.fwmv", "sample_1.fwmv"];
    let names = convert::plan_output_names(&stems, &|n: &str| existing.contains(&n)).unwrap();
    assert_eq!(names, vec!["sample.fwmv", "sample_2.fwmv", "b_1.fwmv", "sample_3.fwmv"]);
}

#[test]
fn conversion_parameters_are_fixed() {
    let p = convert::pack_params();
    assert_eq!((p.width, p.height, p.fps_num, p.fps_den, p.audio_rate), (480, 270, 15, 1, 16000));
}
