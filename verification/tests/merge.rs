use svt::merge::{deduped, is_clear, merge_objects, spaced_objects};
use svt::objects::sorted_objects;
use svt::{MapObject, MapObjectClass, SortKey, SvtError, SVT};

const MAP: &str = "[General]\nMode: 1\n\n[TimingPoints]\n0,500,4,0,0,100,1,0\n5,-100,4,0,0,100,0,0\n12,-80,4,0,0,100,0,0\n20,-90,4,0,0,100,0,0\n30,250,4,0,0,100,1,0\n\n\n[HitObjects]\n1,1,7\n";

fn point(time: i32) -> MapObject {
    MapObject::new_generated(time, format!("{},-50,4,0,0,100,0,0", time).into_bytes())
}

fn with_points(times: &[i32]) -> SVT {
    let mut svt = SVT::new();
    svt.load_osu(MAP.as_bytes(), &vec![0, 500]);
    for t in times {
        svt.new_objs.push(point(*t));
    }
    svt
}

fn times(v: &Vec<MapObject>) -> Vec<i32> {
    v.iter().map(|o| o.time).collect()
}

fn text(bytes: Vec<u8>) -> String {
    String::from_utf8(bytes).unwrap()
}

#[test]
fn accepted_points_are_more_than_the_spacing_apart() {
    let made: Vec<MapObject> = [0, 2, 3, 7, 8, 12].iter().map(|t| point(*t)).collect();
    assert_eq!(times(&spaced_objects(&made, 3)), vec![0, 7, 12]);
    assert_eq!(times(&spaced_objects(&made, 0)), vec![0, 2, 3, 7, 8, 12]);
    assert_eq!(times(&spaced_objects(&made, 1)), vec![0, 2, 7, 12]);
    assert_eq!(times(&spaced_objects(&made, 1000)), vec![0]);
    assert_eq!(times(&spaced_objects(&Vec::new(), 3)), Vec::<i32>::new());
    for m in 0..15 {
        let kept = times(&spaced_objects(&made, m));
        assert!(kept.windows(2).all(|w| w[1] - w[0] > m));
    }
}

#[test]
fn the_first_point_is_accepted_whatever_its_time() {
    let made = vec![point(-5000), point(-4500), point(-3000)];
    assert_eq!(times(&spaced_objects(&made, 1000)), vec![-5000, -3000]);
    let made = vec![point(i32::MIN), point(i32::MAX)];
    assert_eq!(times(&spaced_objects(&made, 1000)), vec![i32::MIN, i32::MAX]);
}

#[test]
fn a_spacing_wider_than_the_pair_leaves_its_first_point() {
    let mut svt = with_points(&[1000, 1500, 2000, 2500, 3000]);
    let (count, _) = svt.write_output_points(b"1000", MAP.as_bytes(), false).unwrap();
    assert_eq!(count, 2);
    assert_eq!(times(&spaced_objects(&svt.new_objs, 1000)), vec![1000, 2500]);
    let mut svt = with_points(&[100, 300, 500, 900]);
    let (count, out) = svt.write_output_points(b"1000", MAP.as_bytes(), false).unwrap();
    assert_eq!(count, 1);
    assert!(text(out).contains("\n100,-50,4,0,0,100,0,0\n"));
}

#[test]
fn nothing_made_means_nothing_written() {
    let mut svt = with_points(&[]);
    assert_eq!(svt.write_output_points(b"3", MAP.as_bytes(), false), Err(SvtError::NoChanges));
    assert_eq!(svt.write_output_points(b"bad", MAP.as_bytes(), false), Err(SvtError::NoChanges));
    assert_eq!(svt.all_objs.len(), 8);
}

#[test]
fn a_malformed_spacing_is_refused() {
    for spacing in ["", "x", "1.5", "-1", "1001", "99999999999"] {
        let mut svt = with_points(&[7, 3]);
        assert_eq!(
            svt.write_output_points(spacing.as_bytes(), MAP.as_bytes(), false),
            Err(SvtError::Format),
            "{}",
            spacing
        );
        assert_eq!(times(&svt.new_objs), vec![7, 3]);
    }
    for spacing in ["0", "3", "1000", "+5"] {
        let mut svt = with_points(&[7, 3]);
        assert!(svt.write_output_points(spacing.as_bytes(), MAP.as_bytes(), false).is_ok());
    }
}

#[test]
fn writing_leaves_the_points_in_order_of_time() {
    let mut svt = with_points(&[12, 7, 0, 7, 3]);
    svt.new_objs[3].data = b"second".to_vec();
    let (count, _) = svt.write_output_points(b"3", MAP.as_bytes(), false).unwrap();
    assert_eq!(times(&svt.new_objs), vec![0, 3, 7, 12]);
    assert_eq!(svt.new_objs[2].data, b"7,-50,4,0,0,100,0,0");
    assert_eq!(count, 3);
}

#[test]
fn velocity_lines_near_an_accepted_point_give_way() {
    let mut svt = with_points(&[7, 12]);
    let (count, out) = svt.write_output_points(b"3", MAP.as_bytes(), false).unwrap();
    assert_eq!(count, 2);
    assert_eq!(
        text(out),
        "[General]\nMode: 1\n\n[TimingPoints]\n0,500,4,0,0,100,1,0\n7,-50,4,0,0,100,0,0\n12,-50,4,0,0,100,0,0\n20,-90,4,0,0,100,0,0\n30,250,4,0,0,100,1,0\n\n[HitObjects]\n1,1,7\n"
    );
}

#[test]
fn a_velocity_line_at_exactly_the_spacing_gives_way() {
    let svt = with_points(&[]);
    let accepted = vec![point(8), point(17)];
    assert_eq!(times(&merge_objects(&accepted, &svt.all_objs, 3)), vec![0, 8, 12, 17, 30]);
    assert_eq!(times(&merge_objects(&accepted, &svt.all_objs, 2)), vec![0, 5, 8, 12, 17, 20, 30]);
    assert_eq!(times(&merge_objects(&accepted, &svt.all_objs, 4)), vec![0, 8, 17, 30]);
    assert!(is_clear(&accepted, 4, 3));
    assert!(!is_clear(&accepted, 5, 3));
    assert!(!is_clear(&accepted, 20, 3));
    assert!(is_clear(&accepted, 21, 3));
    assert!(!is_clear(&accepted, 12, 4));
    assert!(is_clear(&Vec::new(), 12, 1000));
}

#[test]
fn tempo_lines_always_stay_and_come_first_at_their_time() {
    let svt = with_points(&[]);
    let accepted = vec![point(0), point(30)];
    let merged = merge_objects(&accepted, &svt.all_objs, 1000);
    let seen: Vec<(i32, i32, MapObjectClass)> =
        merged.iter().map(|o| (o.time, o.uninherited, o.class)).collect();
    assert_eq!(
        seen,
        vec![
            (0, 1, MapObjectClass::UniPoint),
            (0, 0, MapObjectClass::Generated),
            (30, 1, MapObjectClass::UniPoint),
            (30, 0, MapObjectClass::Generated),
        ]
    );
}

#[test]
fn no_two_merged_points_share_time_and_flag() {
    let mut svt = SVT::new();
    svt.load_osu(
        b"[TimingPoints]\n0,500,4,0,0,100,1,0\n0,400,4,0,0,100,1,0\n9,-100,4,0,0,1,0,0\n9,-100,4,0,0,2,0,0\n9,-100,4,0,0,3,2,0\n9,300,4,0,0,4,1,0\n50,-100,4,0,0,5,0,0\n50,-100,4,0,0,6,2,0\n50,-100,4,0,0,7,0,0\n",
        &Vec::new(),
    );
    let accepted = vec![point(-500), point(500)];
    let merged = merge_objects(&accepted, &svt.all_objs, 3);
    let keys: Vec<(i32, i32)> = merged.iter().map(|o| (o.time, o.uninherited)).collect();
    assert_eq!(keys, vec![(-500, 0), (0, 1), (9, 1), (9, 0), (9, 2), (50, 0), (50, 2), (500, 0)]);
    let volumes: Vec<i32> = merged.iter().map(|o| o.volume).collect();
    assert_eq!(volumes, vec![0, 100, 4, 1, 3, 5, 6, 0]);
    assert_eq!(merged[1].beatlength, b"500");
    for i in 0..keys.len() {
        for j in i + 1..keys.len() {
            assert_ne!(keys[i], keys[j]);
        }
    }
}

#[test]
fn an_accepted_point_takes_the_place_of_a_velocity_line_of_its_time() {
    let svt = with_points(&[]);
    let accepted = vec![point(20)];
    let merged = merge_objects(&accepted, &svt.all_objs, 0);
    let at_20: Vec<&MapObject> = merged.iter().filter(|o| o.time == 20).collect();
    assert_eq!(at_20.len(), 1);
    assert_eq!(at_20[0].class, MapObjectClass::Generated);
    assert_eq!(times(&merged), vec![0, 5, 12, 20, 30]);
}

#[test]
fn sorting_keeps_the_order_of_equal_keys() {
    let mut a = point(5);
    a.data = b"a".to_vec();
    let mut b = point(5);
    b.data = b"b".to_vec();
    let mut c = point(1);
    c.data = b"c".to_vec();
    let mut d = point(5);
    d.data = b"d".to_vec();
    d.uninherited = 1;
    let v = vec![a, b, c, d];
    let by_class: Vec<Vec<u8>> =
        sorted_objects(&v, SortKey::TimeClass).into_iter().map(|o| o.data).collect();
    assert_eq!(by_class, vec![b"c".to_vec(), b"a".to_vec(), b"b".to_vec(), b"d".to_vec()]);
    let by_priority: Vec<Vec<u8>> =
        sorted_objects(&v, SortKey::TimePriority).into_iter().map(|o| o.data).collect();
    assert_eq!(by_priority, vec![b"c".to_vec(), b"d".to_vec(), b"a".to_vec(), b"b".to_vec()]);
    let firsts: Vec<Vec<u8>> = deduped(&sorted_objects(&v, SortKey::TimeClass), SortKey::TimeClass)
        .into_iter()
        .map(|o| o.data)
        .collect();
    assert_eq!(firsts, vec![b"c".to_vec(), b"a".to_vec()]);
}

#[test]
fn a_tempo_line_comes_first_whatever_the_flags_of_its_time() {
    let mut svt = SVT::new();
    svt.load_osu(
        b"[TimingPoints]\n7,-100,4,0,0,1,-1,0\n7,-100,4,0,0,2,3,0\n7,-100,4,0,0,3,2,0\n7,500,4,0,0,4,1,0\n7,-100,4,0,0,5,0,0\n",
        &Vec::new(),
    );
    let merged = merge_objects(&vec![point(900)], &svt.all_objs, 3);
    let flags: Vec<i32> = merged.iter().map(|o| o.uninherited).collect();
    assert_eq!(flags, vec![1, -1, 0, 2, 3, 0]);
    assert_eq!(merged[0].class, MapObjectClass::UniPoint);
}
