use svt::lines::{parse_hit_object, parse_timing_point};
use svt::loader::scan_objects;
use svt::objects::count_class;
use svt::{MapObject, MapObjectClass, SVT};

const MAP: &str = "osu file format v14\n\n[General]\nAudioFilename: audio.mp3\n\n[Metadata]\nTitle:Song\nVersion:Hard\n\n[TimingPoints]\n0,500.0,4,0,0,100,1,0\n1000,-100,4,0,0,100,0,0\nbroken line\n2000,-50,4,1,2,60,0,1\n\n[HitObjects]\n256,192,1000,1,0,0:0:0:0:\n256,192,500.6,1,0\nnot,a,hit\n12,34\n256,192,3000,1,0,0:0:0:0:\n";

#[test]
fn a_tempo_line_is_read() {
    let o = parse_timing_point(b"0,500.0,4,0,0,100,1,0").unwrap();
    assert_eq!(o.class, MapObjectClass::UniPoint);
    assert_eq!(o.time, 0);
    assert_eq!(o.beatlength, b"500.0");
    assert_eq!(o.meter, 4);
    assert_eq!(o.sampleset, 0);
    assert_eq!(o.sampleindex, 0);
    assert_eq!(o.volume, 100);
    assert_eq!(o.uninherited, 1);
    assert_eq!(o.effects, 0);
    assert_eq!(o.data, b"0,500.0,4,0,0,100,1,0");
}

#[test]
fn a_velocity_line_is_read() {
    let o = parse_timing_point(b"111376.4,-76.92308,3,1,2,55,0,9").unwrap();
    assert_eq!(o.class, MapObjectClass::InhPoint);
    assert_eq!(o.time, 111376);
    assert_eq!(o.beatlength, b"-76.92308");
    assert_eq!(o.meter, 3);
    assert_eq!(o.sampleset, 1);
    assert_eq!(o.sampleindex, 2);
    assert_eq!(o.volume, 55);
    assert_eq!(o.uninherited, 0);
    assert_eq!(o.effects, 9);
    assert_eq!(o.data, b"111376.4,-76.92308,3,1,2,55,0,9");
}

#[test]
fn a_timing_line_needs_eight_well_formed_fields() {
    assert!(parse_timing_point(b"").is_none());
    assert!(parse_timing_point(b"0,500.0,4,0,0,100,1").is_none());
    assert!(parse_timing_point(b"0,500.0,4,0,0,100,1,0,0").is_none());
    assert!(parse_timing_point(b"x,500.0,4,0,0,100,1,0").is_none());
    assert!(parse_timing_point(b"0,abc,4,0,0,100,1,0").is_none());
    assert!(parse_timing_point(b"0,500.0,4.5,0,0,100,1,0").is_none());
    assert!(parse_timing_point(b"0,500.0,4,0,0,100,1,").is_none());
    assert!(parse_timing_point(b"0,500.0,4,0,0,100,1,0 ").is_none());
    assert!(parse_timing_point(b"0,500.0,4,0,0,99999999999,1,0").is_none());
}

#[test]
fn a_hit_object_is_read_for_its_time() {
    let o = parse_hit_object(b"256,192,3000,1,0,0:0:0:0:").unwrap();
    assert_eq!(o.class, MapObjectClass::Hit);
    assert_eq!(o.time, 3000);
    assert!(o.data.is_empty());
    assert!(o.beatlength.is_empty());
    assert_eq!(parse_hit_object(b"a,b,12.5").unwrap().time, 13);
    assert!(parse_hit_object(b"256,192").is_none());
    assert!(parse_hit_object(b"256").is_none());
    assert!(parse_hit_object(b"256,192,x,1").is_none());
    assert!(parse_hit_object(b"").is_none());
}

#[test]
fn only_the_two_sections_are_read() {
    let objects = scan_objects(MAP.as_bytes());
    let seen: Vec<(MapObjectClass, i32)> = objects.iter().map(|o| (o.class, o.time)).collect();
    assert_eq!(
        seen,
        vec![
            (MapObjectClass::UniPoint, 0),
            (MapObjectClass::InhPoint, 1000),
            (MapObjectClass::InhPoint, 2000),
            (MapObjectClass::Hit, 1000),
            (MapObjectClass::Hit, 501),
            (MapObjectClass::Hit, 3000),
        ]
    );
}

#[test]
fn a_truncated_file_gives_an_empty_timeline() {
    assert!(scan_objects(b"").is_empty());
    assert!(scan_objects(b"[TimingPoints]\n0,500").is_empty());
    assert!(scan_objects(b"0,500.0,4,0,0,100,1,0\n").is_empty());
}

#[test]
fn the_timeline_is_in_order_of_time_and_class() {
    let mut svt = SVT::new();
    svt.load_osu(MAP.as_bytes(), &vec![1000, 0, 500, 1500]);
    let seen: Vec<(MapObjectClass, i32)> = svt.all_objs.iter().map(|o| (o.class, o.time)).collect();
    assert_eq!(
        seen,
        vec![
            (MapObjectClass::UniPoint, 0),
            (MapObjectClass::Snapping, 0),
            (MapObjectClass::Snapping, 500),
            (MapObjectClass::Hit, 501),
            (MapObjectClass::InhPoint, 1000),
            (MapObjectClass::Snapping, 1000),
            (MapObjectClass::Hit, 1000),
            (MapObjectClass::Snapping, 1500),
            (MapObjectClass::InhPoint, 2000),
            (MapObjectClass::Hit, 3000),
        ]
    );
    assert!(svt.new_objs.is_empty());
}

#[test]
fn lines_of_one_time_and_class_keep_their_order() {
    let mut svt = SVT::new();
    svt.load_osu(b"[TimingPoints]\n10,-100,4,0,0,1,0,0\n5,-100,4,0,0,2,0,0\n10,-100,4,0,0,3,0,0\n5,-100,4,0,0,4,0,0\n", &Vec::new());
    let volumes: Vec<i32> = svt.all_objs.iter().map(|o| o.volume).collect();
    assert_eq!(volumes, vec![2, 4, 1, 3]);
}

#[test]
fn loading_drops_what_was_loaded_and_made_before() {
    let mut svt = SVT::new();
    svt.load_osu(MAP.as_bytes(), &vec![0]);
    svt.new_objs.push(svt.all_objs[0].duplicate());
    svt.load_osu(b"[HitObjects]\n1,2,3\n", &Vec::new());
    assert_eq!(svt.all_objs.len(), 1);
    assert_eq!(svt.all_objs[0].class, MapObjectClass::Hit);
    assert_eq!(svt.all_objs[0].time, 3);
    assert!(svt.new_objs.is_empty());
}

#[test]
fn a_header_inside_a_section_closes_it() {
    let objects = scan_objects(b"[TimingPoints]\n0,500,4,0,0,100,1,0\n[Colours]\n5,500,4,0,0,100,1,0\n[TimingPoints]\n9,500,4,0,0,100,1,0\n");
    let times: Vec<i32> = objects.iter().map(|o| o.time).collect();
    assert_eq!(times, vec![0, 9]);
}

#[test]
fn objects_are_counted_by_class() {
    let mut svt = SVT::new();
    svt.load_osu(MAP.as_bytes(), &vec![0, 500]);
    assert_eq!(count_class(&svt.all_objs, MapObjectClass::UniPoint), 1);
    assert_eq!(count_class(&svt.all_objs, MapObjectClass::InhPoint), 2);
    assert_eq!(count_class(&svt.all_objs, MapObjectClass::Snapping), 2);
    assert_eq!(count_class(&svt.all_objs, MapObjectClass::Hit), 3);
    assert_eq!(count_class(&svt.all_objs, MapObjectClass::Generated), 0);
}

#[test]
fn by_default_nothing_is_loaded() {
    let svt = SVT::default();
    assert!(svt.all_objs.is_empty());
    assert!(svt.new_objs.is_empty());
    let o = MapObject::default();
    assert_eq!(o.class, MapObjectClass::UniPoint);
    assert_eq!((o.time, o.meter, o.sampleset, o.sampleindex, o.volume, o.uninherited, o.effects), (0, 0, 0, 0, 0, 0, 0));
    assert!(o.beatlength.is_empty() && o.data.is_empty());
}
